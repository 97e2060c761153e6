//! The scheduler as a state machine over plain values: what each step does
//! to the channels, the cache and the executions in flight.

use vstd::prelude::*;
use crate::backoff::backoff_delay;
use crate::cache::{due_order, projection};
use crate::config::SchedulerConfig;
use crate::event::{decoded, Event, EventBody, EventKind, RawLog};
use crate::ident::{Address, ChannelId, ProviderId};
use crate::registry::{
    acquire_step, grantable, lease_live, release_step, rescheduled, Channel, ChannelStatus,
    LeaseState,
};
use crate::time::moment_after;
use crate::store::{channels_after, events_after, ingest_outcome, providers_after};

verus! {

/// Where the loop stands between two ticks and within one.
#[derive(Clone, Copy, Debug, PartialEq, Eq)]
pub enum LoopState {
    /// Waiting for the next tick.
    Idle,
    /// The due channels have been taken from the cache.
    Ticking,
    /// Leases have been taken and the executions are being started.
    Dispatching,
}

/// Why an execution failed.
#[derive(Clone, Copy, Debug, PartialEq, Eq)]
pub enum FailureReason {
    ExternalActionFailed,
    Timeout,
}

/// What a worker reports of an execution.
#[derive(Clone, Copy, Debug, PartialEq, Eq)]
pub enum WorkerOutcome {
    /// The execution went through; the channel is next due at `next_due_at`.
    Completed { next_due_at: u64 },
    Failed(FailureReason),
}

/// What the scheduler made of a worker's report.
#[derive(Clone, Copy, Debug, PartialEq, Eq)]
pub enum Completion {
    /// The channel waits for its next due time.
    Rescheduled { due_at: u64 },
    /// The channel will be tried again at `due_at`.
    Retrying { due_at: u64, failures: u32 },
    /// The channel has failed too often and is left for an operator.
    Stuck { failures: u32 },
    /// The execution was called off before it began; the channel is due as
    /// it was.
    Withdrawn { due_at: u64 },
    /// No execution of the channel was in flight.
    NotInFlight,
    /// The lease was no longer this run's, so the report was discarded.
    LeaseLost,
}

/// Everything the scheduler knows, as plain values.
#[verifier::ext_equal]
pub struct Model {
    pub config: SchedulerConfig,
    /// The holder in whose name this run takes leases.
    pub holder: u64,
    pub channels: Map<ChannelId, Channel>,
    pub events: Seq<Event>,
    pub providers: Map<Address, ProviderId>,
    pub cache: Map<ChannelId, u64>,
    /// The channels that are being executed.
    pub in_flight: Seq<ChannelId>,
    /// The channels of the current tick that have not been looked at yet.
    pub pending: Seq<ChannelId>,
    pub state: LoopState,
    /// The time of the current tick.
    pub tick_time: u64,
}

/// The scheduler as it starts: idle, nothing in flight, the cache built from
/// the channels.
pub open spec fn started(
    config: SchedulerConfig,
    holder: u64,
    channels: Map<ChannelId, Channel>,
    events: Seq<Event>,
    providers: Map<Address, ProviderId>,
) -> Model {
    Model {
        config,
        holder,
        channels,
        events,
        providers,
        cache: projection(channels),
        in_flight: Seq::empty(),
        pending: Seq::empty(),
        state: LoopState::Idle,
        tick_time: 0,
    }
}

/// A lease on `id` is live at `now`, so the channel is held back: it is no
/// candidate of a tick at `now`, however long it has been due.
pub open spec fn held_back(channels: Map<ChannelId, Channel>, now: u64, id: ChannelId) -> bool {
    channels.contains_key(id) && lease_live(channels[id].lease, now)
}

/// The part of the cache that is not held back at `now`.
pub open spec fn passable(
    cache: Map<ChannelId, u64>,
    channels: Map<ChannelId, Channel>,
    now: u64,
) -> Map<ChannelId, u64> {
    Map::new(
        |id: ChannelId| cache.contains_key(id) && !held_back(channels, now, id),
        |id: ChannelId| cache[id],
    )
}

/// The part of the cache that stays in it at a tick at `now`: what is not
/// due yet, and what is held back.
pub open spec fn waiting(
    cache: Map<ChannelId, u64>,
    channels: Map<ChannelId, Channel>,
    now: u64,
) -> Map<ChannelId, u64> {
    Map::new(
        |id: ChannelId| cache.contains_key(id) && (cache[id] > now || held_back(channels, now, id)),
        |id: ChannelId| cache[id],
    )
}

/// Those of `ids`, in their order, that are not held back at `now`.
pub open spec fn not_held_back(
    ids: Seq<ChannelId>,
    channels: Map<ChannelId, Channel>,
    now: u64,
) -> Seq<ChannelId>
    decreases ids.len(),
{
    if ids.len() == 0 {
        Seq::empty()
    } else if held_back(channels, now, ids.last()) {
        not_held_back(ids.drop_last(), channels, now)
    } else {
        not_held_back(ids.drop_last(), channels, now).push(ids.last())
    }
}

/// The candidates of a tick at `now`: the channels of the cache that are due
/// and on which no lease is live, in ascending order of due time, equal due
/// times in order of identifier.
pub open spec fn candidates_at(
    cache: Map<ChannelId, u64>,
    channels: Map<ChannelId, Channel>,
    now: u64,
) -> Seq<ChannelId> {
    due_order(passable(cache, channels, now), now)
}

/// A tick begins: the candidates leave the cache, in order, and wait to be
/// looked at. A due channel under a live lease stays in the cache, with its
/// due time, until a tick finds the lease ended. Outside `Idle` nothing
/// happens.
pub open spec fn begin_tick_step(m: Model, now: u64) -> Model {
    if m.state is Idle {
        Model {
            pending: candidates_at(m.cache, m.channels, now),
            cache: waiting(m.cache, m.channels, now),
            state: LoopState::Ticking,
            tick_time: now,
            ..m
        }
    } else {
        m
    }
}

/// The channels among `candidates`, taken in order, that get an execution:
/// those whose lease can be had at `now` for `ttl`, as long as one of `free`
/// places is left.
pub open spec fn plan(
    candidates: Seq<ChannelId>,
    channels: Map<ChannelId, Channel>,
    now: u64,
    ttl: u64,
    free: int,
) -> Seq<ChannelId>
    decreases candidates.len(),
{
    if candidates.len() == 0 {
        Seq::empty()
    } else {
        let before = plan(candidates.drop_last(), channels, now, ttl, free);
        let id = candidates.last();
        if before.len() < free && channels.contains_key(id) && grantable(channels[id], now, ttl) {
            before.push(id)
        } else {
            before
        }
    }
}

/// The channels with a fresh lease on each of `ids`.
pub open spec fn leased(
    channels: Map<ChannelId, Channel>,
    ids: Seq<ChannelId>,
    holder: u64,
    now: u64,
    ttl: u64,
) -> Map<ChannelId, Channel> {
    Map::new(
        |id: ChannelId| channels.contains_key(id),
        |id: ChannelId|
            if ids.contains(id) {
                acquire_step(channels[id], holder, now, ttl).0
            } else {
                channels[id]
            },
    )
}

/// A candidate that got no execution goes back into the cache.
pub open spec fn set_back(
    candidates: Seq<ChannelId>,
    go: Seq<ChannelId>,
    channels: Map<ChannelId, Channel>,
    id: ChannelId,
) -> bool {
    candidates.contains(id) && !go.contains(id) && channels.contains_key(id)
}

/// The cache with the candidates that got no execution back in it, each at
/// its due time, so that the next tick takes it up again.
pub open spec fn recached(
    cache: Map<ChannelId, u64>,
    channels: Map<ChannelId, Channel>,
    candidates: Seq<ChannelId>,
    go: Seq<ChannelId>,
) -> Map<ChannelId, u64> {
    Map::new(
        |id: ChannelId| cache.contains_key(id) || set_back(candidates, go, channels, id),
        |id: ChannelId|
            if set_back(candidates, go, channels, id) {
                channels[id].due_at
            } else {
                cache[id]
            },
    )
}

/// The places that are free for new executions.
pub open spec fn free_places(m: Model) -> int {
    m.config.max_concurrent_workers - m.in_flight.len()
}

/// The channels that the dispatch of this tick sends out.
pub open spec fn dispatch_targets(m: Model) -> Seq<ChannelId> {
    if m.state is Ticking {
        plan(m.pending, m.channels, m.tick_time, m.config.lease_ttl, free_places(m))
    } else {
        Seq::empty()
    }
}

/// The dispatch of a tick: every target gets a lease from the time of the
/// tick and is in flight; every other candidate is back in the cache.
/// Outside `Ticking` nothing happens.
pub open spec fn dispatch_step(m: Model) -> Model {
    if m.state is Ticking {
        let go = dispatch_targets(m);
        Model {
            channels: leased(m.channels, go, m.holder, m.tick_time, m.config.lease_ttl),
            cache: recached(m.cache, m.channels, m.pending, go),
            in_flight: m.in_flight + go,
            pending: Seq::empty(),
            state: LoopState::Dispatching,
            ..m
        }
    } else {
        m
    }
}

/// The executions are started and the loop goes back to waiting.
pub open spec fn finish_tick_step(m: Model) -> Model {
    if m.state is Dispatching {
        Model { state: LoopState::Idle, ..m }
    } else {
        m
    }
}

/// The failures on record after one more, as far as they can be counted.
pub open spec fn one_more(failures: u32) -> u32 {
    if failures < u32::MAX {
        (failures + 1) as u32
    } else {
        failures
    }
}

/// A worker's report on `id` at `now`.
pub open spec fn complete_step(m: Model, id: ChannelId, outcome: WorkerOutcome, now: u64) -> (
    Model,
    Completion,
) {
    if !m.in_flight.contains(id) {
        (m, Completion::NotInFlight)
    } else {
        let flying = m.in_flight.remove(m.in_flight.index_of(id));
        if !m.channels.contains_key(id) || release_step(m.channels[id], m.holder).1 is NotHolder {
            (Model { in_flight: flying, ..m }, Completion::LeaseLost)
        } else {
            let free = release_step(m.channels[id], m.holder).0;
            match outcome {
                WorkerOutcome::Completed { next_due_at } => {
                    let row = Channel { failures: 0, ..rescheduled(free, next_due_at) };
                    (
                        Model {
                            in_flight: flying,
                            channels: m.channels.insert(id, row),
                            cache: m.cache.insert(id, row.due_at),
                            ..m
                        },
                        Completion::Rescheduled { due_at: row.due_at },
                    )
                },
                WorkerOutcome::Failed(_) => {
                    let failures = one_more(free.failures);
                    if failures >= m.config.max_attempts {
                        let row = Channel { failures, status: ChannelStatus::Stuck, ..free };
                        (
                            Model {
                                in_flight: flying,
                                channels: m.channels.insert(id, row),
                                ..m
                            },
                            Completion::Stuck { failures },
                        )
                    } else {
                        let delay = backoff_delay(
                            failures as nat,
                            m.config.retry_backoff_base as nat,
                            m.config.retry_backoff_cap as nat,
                        );
                        let row = Channel {
                            failures,
                            ..rescheduled(free, moment_after(now, delay as u64))
                        };
                        (
                            Model {
                                in_flight: flying,
                                channels: m.channels.insert(id, row),
                                cache: m.cache.insert(id, row.due_at),
                                ..m
                            },
                            Completion::Retrying { due_at: row.due_at, failures },
                        )
                    }
                },
            }
        }
    }
}

/// The execution of `id` is called off before it began, as when the dispatch
/// could not be written down: the lease is given back, no failure is counted,
/// and the channel is in the cache again with the due time it had.
pub open spec fn abandon_step(m: Model, id: ChannelId) -> (Model, Completion) {
    if !m.in_flight.contains(id) {
        (m, Completion::NotInFlight)
    } else {
        let flying = m.in_flight.remove(m.in_flight.index_of(id));
        if !m.channels.contains_key(id) || release_step(m.channels[id], m.holder).1 is NotHolder {
            (Model { in_flight: flying, ..m }, Completion::LeaseLost)
        } else {
            let row = release_step(m.channels[id], m.holder).0;
            (
                Model {
                    in_flight: flying,
                    channels: m.channels.insert(id, row),
                    cache: m.cache.insert(id, row.due_at),
                    ..m
                },
                Completion::Withdrawn { due_at: row.due_at },
            )
        }
    }
}

/// Whether `id` can be moved to the earlier due time `due_at`.
pub open spec fn promotable(m: Model, id: ChannelId, due_at: u64) -> bool {
    m.channels.contains_key(id) && m.channels[id].status is Active && due_at
        < m.channels[id].due_at
}

/// A channel is moved to an earlier due time, in the registry and, where it
/// waits there, in the cache.
pub open spec fn promote_step(m: Model, id: ChannelId, due_at: u64) -> Model {
    if promotable(m, id, due_at) {
        let row = Channel { due_at, ..m.channels[id] };
        Model {
            channels: m.channels.insert(id, row),
            cache: if m.cache.contains_key(id) {
                m.cache.insert(id, due_at)
            } else {
                m.cache
            },
            ..m
        }
    } else {
        m
    }
}

/// Whether `event` opens a channel that is not known yet.
pub open spec fn opens_new_channel(channels: Map<ChannelId, Channel>, event: Event) -> bool {
    event.body matches EventBody::ChannelOpened { channel_id } && !channels.contains_key(
        channel_id,
    )
}

/// An event is handed in at `now`.
pub open spec fn ingest_step(m: Model, event: Event, now: u64) -> Model {
    if ingest_outcome(m.events, event) is AlreadyPresent {
        m
    } else {
        let due_at = moment_after(now, m.config.initial_due_offset);
        Model {
            events: events_after(m.events, event),
            providers: providers_after(m.providers, event),
            channels: channels_after(m.channels, event, due_at),
            cache: if opens_new_channel(m.channels, event) {
                m.cache.insert(event.body->channel_id, due_at)
            } else {
                m.cache
            },
            ..m
        }
    }
}

/// What became of the logs of a batch.
#[derive(Clone, Copy, Debug, PartialEq, Eq)]
pub struct BatchReport {
    /// Logs whose event was new and is stored now.
    pub inserted: usize,
    /// Logs whose event was stored already.
    pub duplicates: usize,
    /// Logs that could not be decoded and were skipped.
    pub malformed: usize,
}

/// A batch of logs is handed in at `now`, one log after the other. A log
/// that cannot be decoded is skipped and the rest goes on.
pub open spec fn ingest_logs_step(m: Model, kind: EventKind, logs: Seq<RawLog>, now: u64) -> Model
    decreases logs.len(),
{
    if logs.len() == 0 {
        m
    } else {
        let before = ingest_logs_step(m, kind, logs.drop_last(), now);
        match decoded(kind, logs.last()) {
            Ok(event) => ingest_step(before, event, now),
            Err(_) => before,
        }
    }
}

/// How many logs of a batch were stored, known already, and skipped.
pub open spec fn batch_counts(m: Model, kind: EventKind, logs: Seq<RawLog>, now: u64) -> (
    int,
    int,
    int,
)
    decreases logs.len(),
{
    if logs.len() == 0 {
        (0, 0, 0)
    } else {
        let before = ingest_logs_step(m, kind, logs.drop_last(), now);
        let (inserted, duplicates, malformed) = batch_counts(m, kind, logs.drop_last(), now);
        match decoded(kind, logs.last()) {
            Ok(event) => if ingest_outcome(before.events, event) is Inserted {
                (inserted + 1, duplicates, malformed)
            } else {
                (inserted, duplicates + 1, malformed)
            },
            Err(_) => (inserted, duplicates, malformed + 1),
        }
    }
}

/// The cache holds `id` as the registry has it, and the channel is neither
/// in flight nor a candidate of the current tick.
pub open spec fn cached_right(m: Model, id: ChannelId) -> bool {
    &&& m.channels.contains_key(id)
    &&& m.channels[id].status is Active
    &&& m.cache[id] == m.channels[id].due_at
    &&& !m.in_flight.contains(id)
    &&& !m.pending.contains(id)
}

/// The channel in flight is leased to this run and is no candidate.
pub open spec fn flying_right(m: Model, id: ChannelId) -> bool {
    &&& m.channels.contains_key(id)
    &&& m.channels[id].status is Active
    &&& m.channels[id].lease matches LeaseState::Leased { holder, .. } && holder == m.holder
    &&& !m.pending.contains(id)
}

/// The candidate was due at the time of the tick and no lease on it was live
/// then.
pub open spec fn pending_right(m: Model, id: ChannelId) -> bool {
    &&& m.channels.contains_key(id)
    &&& m.channels[id].status is Active
    &&& m.channels[id].due_at <= m.tick_time
    &&& !lease_live(m.channels[id].lease, m.tick_time)
}

/// The channel is somewhere the scheduler will come back to.
pub open spec fn tracked_somewhere(m: Model, id: ChannelId) -> bool {
    m.cache.contains_key(id) || m.in_flight.contains(id) || m.pending.contains(id)
}

/// What holds of the scheduler between any two steps.
pub open spec fn consistent(m: Model) -> bool {
    &&& m.in_flight.no_duplicates()
    &&& m.pending.no_duplicates()
    &&& m.in_flight.len() <= m.config.max_concurrent_workers
    &&& (m.state is Ticking || m.pending.len() == 0)
    &&& forall|id: ChannelId| #[trigger] m.channels.contains_key(id) ==> m.channels[id].id == id
    &&& forall|id: ChannelId| #[trigger] m.cache.contains_key(id) ==> cached_right(m, id)
    &&& forall|id: ChannelId| #[trigger] m.in_flight.contains(id) ==> flying_right(m, id)
    &&& forall|id: ChannelId| #[trigger] m.pending.contains(id) ==> pending_right(m, id)
    &&& forall|id: ChannelId|
        #[trigger] m.channels.contains_key(id) && m.channels[id].status is Active
            ==> tracked_somewhere(m, id)
}

} // verus!
