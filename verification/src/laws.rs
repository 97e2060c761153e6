//! What holds of the scheduler whatever it is asked to do.

use vstd::prelude::*;
use crate::cache::{
    due_order, entry_before, entry_of, is_due_order, lemma_due_order_lists_once,
    lemma_due_order_unique, lemma_earlier_due_pops_first, projection,
};
use crate::config::SchedulerConfig;
use crate::event::{decoded, Event, EventKind, RawLog};
use crate::ident::{Address, ChannelId, ProviderId};
use crate::model::{
    abandon_step, batch_counts, begin_tick_step, ingest_logs_step, cached_right, candidates_at, complete_step, consistent,
    dispatch_step, dispatch_targets, finish_tick_step, flying_right, free_places, held_back,
    ingest_step, not_held_back, passable, pending_right, plan, promote_step, set_back, started,
    tracked_somewhere, Model, WorkerOutcome,
};
use crate::registry::{
    acquire_step, grantable, lease_live, Channel, LeaseOutcome, LeaseState, RegistryError,
};
use crate::store::stored;
use crate::seqs::{
    lemma_add_contains, lemma_push_contains, lemma_push_no_duplicates, lemma_remove_contains,
};

verus! {

/// Every row is kept under its own identifier.
pub open spec fn keyed_by_id(channels: Map<ChannelId, Channel>) -> bool {
    forall|id: ChannelId| #[trigger] channels.contains_key(id) ==> channels[id].id == id
}

/// The planned channels are candidates whose lease can be had, each at most
/// once, and no more of them than there are places.
pub proof fn lemma_plan_facts(
    candidates: Seq<ChannelId>,
    channels: Map<ChannelId, Channel>,
    now: u64,
    ttl: u64,
    free: int,
)
    ensures
        plan(candidates, channels, now, ttl, free).len() <= candidates.len(),
        plan(candidates, channels, now, ttl, free).len() <= free || plan(
            candidates,
            channels,
            now,
            ttl,
            free,
        ).len() == 0,
        forall|id: ChannelId| #[trigger]
            plan(candidates, channels, now, ttl, free).contains(id) ==> candidates.contains(id)
                && channels.contains_key(id) && grantable(channels[id], now, ttl),
        candidates.no_duplicates() ==> plan(candidates, channels, now, ttl, free).no_duplicates(),
    decreases candidates.len(),
{
    let p = plan(candidates, channels, now, ttl, free);
    if candidates.len() > 0 {
        let rest = candidates.drop_last();
        let before = plan(rest, channels, now, ttl, free);
        let last = candidates.last();
        lemma_plan_facts(rest, channels, now, ttl, free);
        lemma_push_contains(before, last);
        assert(candidates =~= rest.push(last));
        lemma_push_contains(rest, last);
        if candidates.no_duplicates() {
            assert(rest.no_duplicates());
            if rest.contains(last) {
                let i = rest.index_of(last);
                assert(candidates[i] == candidates[candidates.len() - 1]);
            }
            if p != before {
                lemma_push_no_duplicates(before, last);
            }
        }
    }
}

/// Passing over the channels that are held back leaves exactly the others.
pub proof fn lemma_not_held_back_facts(
    ids: Seq<ChannelId>,
    channels: Map<ChannelId, Channel>,
    now: u64,
)
    ensures
        forall|id: ChannelId| #[trigger]
            not_held_back(ids, channels, now).contains(id) <==> ids.contains(id) && !held_back(
                channels,
                now,
                id,
            ),
    decreases ids.len(),
{
    if ids.len() > 0 {
        let rest = ids.drop_last();
        let last = ids.last();
        lemma_not_held_back_facts(rest, channels, now);
        lemma_push_contains(not_held_back(rest, channels, now), last);
        assert(ids =~= rest.push(last));
        lemma_push_contains(rest, last);
    }
}

/// Passing over the channels that are held back leaves the others in the
/// order they had.
proof fn lemma_not_held_back_keeps_order(
    cache: Map<ChannelId, u64>,
    ids: Seq<ChannelId>,
    channels: Map<ChannelId, Channel>,
    now: u64,
)
    requires
        forall|i: int, j: int|
            0 <= i < j < ids.len() ==> entry_before(
                entry_of(cache, ids[i]),
                entry_of(cache, ids[j]),
            ),
    ensures
        forall|i: int, j: int|
            0 <= i < j < not_held_back(ids, channels, now).len() ==> entry_before(
                entry_of(cache, not_held_back(ids, channels, now)[i]),
                entry_of(cache, not_held_back(ids, channels, now)[j]),
            ),
    decreases ids.len(),
{
    if ids.len() > 0 {
        let rest = ids.drop_last();
        let last = ids.last();
        let before = not_held_back(rest, channels, now);
        let kept = not_held_back(ids, channels, now);
        lemma_not_held_back_keeps_order(cache, rest, channels, now);
        lemma_not_held_back_facts(rest, channels, now);
        assert forall|i: int, j: int| 0 <= i < j < kept.len() implies entry_before(
            entry_of(cache, kept[i]),
            entry_of(cache, kept[j]),
        ) by {
            if j < before.len() {
                assert(kept[i] == before[i] && kept[j] == before[j]);
            } else {
                assert(kept[j] == last);
                assert(kept[i] == before[i]);
                assert(before.contains(before[i]));
                let k = rest.index_of(before[i]);
                assert(ids[k] == before[i]);
                assert(ids[ids.len() - 1] == last);
            }
        }
    }
}

/// The channels that leave a cache as due, without those that are held back,
/// are the candidates of the tick: exactly the due channels on which no lease
/// is live, in the order of their due times.
pub proof fn lemma_candidates_are_in_order(
    cache: Map<ChannelId, u64>,
    channels: Map<ChannelId, Channel>,
    now: u64,
    popped: Seq<ChannelId>,
)
    requires
        is_due_order(cache, now, popped),
    ensures
        not_held_back(popped, channels, now) == candidates_at(cache, channels, now),
        is_due_order(passable(cache, channels, now), now, candidates_at(cache, channels, now)),
{
    let kept = not_held_back(popped, channels, now);
    let open = passable(cache, channels, now);
    lemma_not_held_back_facts(popped, channels, now);
    lemma_not_held_back_keeps_order(cache, popped, channels, now);
    assert forall|id: ChannelId| kept.contains(id) <==> open.contains_key(id) && open[id]
        <= now by {
        if kept.contains(id) {
            assert(popped.contains(id));
        }
        if open.contains_key(id) && open[id] <= now {
            assert(popped.contains(id));
        }
    }
    assert forall|i: int, j: int| 0 <= i < j < kept.len() implies entry_before(
        entry_of(open, kept[i]),
        entry_of(open, kept[j]),
    ) by {
        assert(kept.contains(kept[i]));
        assert(kept.contains(kept[j]));
        assert(entry_before(entry_of(cache, kept[i]), entry_of(cache, kept[j])));
    }
    assert(is_due_order(open, now, kept));
    let chosen = due_order(open, now);
    assert(is_due_order(open, now, chosen));
    lemma_due_order_unique(open, now, kept, chosen);
}

/// A scheduler that starts on well-kept channels starts consistent.
pub proof fn lemma_started_consistent(
    config: SchedulerConfig,
    holder: u64,
    channels: Map<ChannelId, Channel>,
    events: Seq<Event>,
    providers: Map<Address, ProviderId>,
)
    requires
        keyed_by_id(channels),
    ensures
        consistent(started(config, holder, channels, events, providers)),
{
    let m = started(config, holder, channels, events, providers);
    assert forall|id: ChannelId| #[trigger] m.cache.contains_key(id) implies cached_right(
        m,
        id,
    ) by {}
    assert forall|id: ChannelId| #[trigger]
        m.channels.contains_key(id) && m.channels[id].status is Active implies tracked_somewhere(
        m,
        id,
    ) by {
        assert(m.cache.contains_key(id));
    }
}

/// Going back to waiting keeps the scheduler consistent.
pub proof fn lemma_finish_tick_consistent(m: Model)
    requires
        consistent(m),
    ensures
        consistent(finish_tick_step(m)),
{
    let n = finish_tick_step(m);
    assert forall|id: ChannelId| #[trigger] n.cache.contains_key(id) implies cached_right(
        n,
        id,
    ) by {
        assert(cached_right(m, id));
    }
    assert forall|id: ChannelId| #[trigger] n.in_flight.contains(id) implies flying_right(
        n,
        id,
    ) by {
        assert(flying_right(m, id));
    }
    assert forall|id: ChannelId| #[trigger]
        n.channels.contains_key(id) && n.channels[id].status is Active implies tracked_somewhere(
        n,
        id,
    ) by {
        assert(tracked_somewhere(m, id));
    }
}

/// Moving a channel to an earlier due time keeps the scheduler consistent.
pub proof fn lemma_promote_consistent(m: Model, id: ChannelId, due_at: u64)
    requires
        consistent(m),
    ensures
        consistent(promote_step(m, id, due_at)),
{
    let n = promote_step(m, id, due_at);
    assert forall|x: ChannelId| #[trigger] n.cache.contains_key(x) implies cached_right(
        n,
        x,
    ) by {
        assert(m.cache.contains_key(x));
        assert(cached_right(m, x));
    }
    assert forall|x: ChannelId| #[trigger] n.in_flight.contains(x) implies flying_right(
        n,
        x,
    ) by {
        assert(flying_right(m, x));
    }
    assert forall|x: ChannelId| #[trigger] n.pending.contains(x) implies pending_right(
        n,
        x,
    ) by {
        assert(pending_right(m, x));
    }
    assert forall|x: ChannelId| #[trigger]
        n.channels.contains_key(x) && n.channels[x].status is Active implies tracked_somewhere(
        n,
        x,
    ) by {
        assert(m.channels.contains_key(x));
        assert(tracked_somewhere(m, x));
    }
}

/// Taking in an event keeps the scheduler consistent.
pub proof fn lemma_ingest_consistent(m: Model, event: Event, now: u64)
    requires
        consistent(m),
    ensures
        consistent(ingest_step(m, event, now)),
{
    let n = ingest_step(m, event, now);
    assert forall|x: ChannelId| #[trigger] n.channels.contains_key(x) implies n.channels[x].id
        == x by {
        if m.channels.contains_key(x) {
            assert(m.channels[x].id == x);
        }
    }
    assert forall|x: ChannelId| #[trigger] n.cache.contains_key(x) implies cached_right(
        n,
        x,
    ) by {
        if m.cache.contains_key(x) {
            assert(cached_right(m, x));
        } else {
            if m.in_flight.contains(x) {
                assert(flying_right(m, x));
            }
            if m.pending.contains(x) {
                assert(pending_right(m, x));
            }
        }
    }
    assert forall|x: ChannelId| #[trigger] n.in_flight.contains(x) implies flying_right(
        n,
        x,
    ) by {
        assert(flying_right(m, x));
    }
    assert forall|x: ChannelId| #[trigger] n.pending.contains(x) implies pending_right(
        n,
        x,
    ) by {
        assert(pending_right(m, x));
    }
    assert forall|x: ChannelId| #[trigger]
        n.channels.contains_key(x) && n.channels[x].status is Active implies tracked_somewhere(
        n,
        x,
    ) by {
        if m.channels.contains_key(x) {
            assert(tracked_somewhere(m, x));
        }
    }
}

/// Beginning a tick keeps the scheduler consistent.
pub proof fn lemma_begin_tick_consistent(m: Model, now: u64)
    requires
        consistent(m),
        is_due_order(m.cache, now, due_order(m.cache, now)),
    ensures
        consistent(begin_tick_step(m, now)),
{
    let n = begin_tick_step(m, now);
    if m.state is Idle {
        let open = passable(m.cache, m.channels, now);
        lemma_candidates_are_in_order(m.cache, m.channels, now, due_order(m.cache, now));
        lemma_due_order_lists_once(open, now, n.pending);
        assert forall|x: ChannelId| #[trigger] n.pending.contains(x) implies pending_right(
            n,
            x,
        ) by {
            assert(open.contains_key(x));
            assert(m.cache.contains_key(x));
            assert(cached_right(m, x));
        }
        assert forall|x: ChannelId| #[trigger] n.cache.contains_key(x) implies cached_right(
            n,
            x,
        ) by {
            assert(m.cache.contains_key(x));
            assert(cached_right(m, x));
            if n.pending.contains(x) {
                assert(open.contains_key(x));
            }
        }
        assert forall|x: ChannelId| #[trigger] n.in_flight.contains(x) implies flying_right(
            n,
            x,
        ) by {
            assert(flying_right(m, x));
            if n.pending.contains(x) {
                assert(open.contains_key(x));
                assert(m.cache.contains_key(x));
                assert(cached_right(m, x));
            }
        }
        assert forall|x: ChannelId| #[trigger]
            n.channels.contains_key(x) && n.channels[x].status
                is Active implies tracked_somewhere(n, x) by {
            assert(tracked_somewhere(m, x));
            if m.cache.contains_key(x) {
                if m.cache[x] <= now && !held_back(m.channels, now, x) {
                    assert(open.contains_key(x));
                    assert(n.pending.contains(x));
                } else {
                    assert(n.cache.contains_key(x));
                }
            }
        }
    }
}

/// The dispatch of a tick keeps the scheduler consistent: in particular no
/// more executions are in flight after it than the settings allow, and no
/// candidate is lost.
pub proof fn lemma_dispatch_consistent(m: Model)
    requires
        consistent(m),
    ensures
        consistent(dispatch_step(m)),
{
    let n = dispatch_step(m);
    if m.state is Ticking {
        let go = dispatch_targets(m);
        lemma_plan_facts(
            m.pending,
            m.channels,
            m.tick_time,
            m.config.lease_ttl,
            free_places(m),
        );
        lemma_add_contains(m.in_flight, go);
        assert forall|i: int, j: int|
            0 <= i < n.in_flight.len() && 0 <= j < n.in_flight.len() && i
                != j implies n.in_flight[i] != n.in_flight[j] by {
            let k = m.in_flight.len() as int;
            if i < k && j >= k {
                assert(m.in_flight.contains(m.in_flight[i]));
                assert(flying_right(m, m.in_flight[i]));
                assert(go.contains(go[j - k]));
            } else if j < k && i >= k {
                assert(m.in_flight.contains(m.in_flight[j]));
                assert(flying_right(m, m.in_flight[j]));
                assert(go.contains(go[i - k]));
            }
        }
        assert forall|x: ChannelId| #[trigger] n.channels.contains_key(x) implies n.channels[x].id
            == x by {
            assert(m.channels.contains_key(x));
        }
        assert forall|x: ChannelId| #[trigger] n.cache.contains_key(x) implies cached_right(
            n,
            x,
        ) by {
            if m.cache.contains_key(x) {
                assert(cached_right(m, x));
            } else {
                assert(set_back(m.pending, go, m.channels, x));
                assert(pending_right(m, x));
                if m.in_flight.contains(x) {
                    assert(flying_right(m, x));
                }
            }
        }
        assert forall|x: ChannelId| #[trigger] n.in_flight.contains(x) implies flying_right(
            n,
            x,
        ) by {
            if m.in_flight.contains(x) {
                assert(flying_right(m, x));
            } else {
                assert(go.contains(x));
                assert(pending_right(m, x));
            }
        }
        assert forall|x: ChannelId| #[trigger]
            n.channels.contains_key(x) && n.channels[x].status
                is Active implies tracked_somewhere(n, x) by {
            assert(m.channels.contains_key(x));
            assert(tracked_somewhere(m, x));
        }
    }
}

/// Taking in a worker's report keeps the scheduler consistent.
pub proof fn lemma_complete_consistent(m: Model, id: ChannelId, outcome: WorkerOutcome, now: u64)
    requires
        consistent(m),
    ensures
        consistent(complete_step(m, id, outcome, now).0),
{
    let n = complete_step(m, id, outcome, now).0;
    if m.in_flight.contains(id) {
        let at = m.in_flight.index_of(id);
        lemma_remove_contains(m.in_flight, at);
        assert(flying_right(m, id));
        if m.cache.contains_key(id) {
            assert(cached_right(m, id));
        }
        assert forall|x: ChannelId| #[trigger] n.channels.contains_key(x) implies n.channels[x].id
            == x by {
            if m.channels.contains_key(x) {
                assert(m.channels[x].id == x);
            }
        }
        assert forall|x: ChannelId| #[trigger] n.cache.contains_key(x) implies cached_right(
            n,
            x,
        ) by {
            if x != id {
                assert(m.cache.contains_key(x));
                assert(cached_right(m, x));
            }
        }
        assert forall|x: ChannelId| #[trigger] n.in_flight.contains(x) implies flying_right(
            n,
            x,
        ) by {
            assert(m.in_flight.contains(x));
            assert(flying_right(m, x));
        }
        assert forall|x: ChannelId| #[trigger] n.pending.contains(x) implies pending_right(
            n,
            x,
        ) by {
            assert(pending_right(m, x));
        }
        assert forall|x: ChannelId| #[trigger]
            n.channels.contains_key(x) && n.channels[x].status
                is Active implies tracked_somewhere(n, x) by {
            if x != id {
                assert(m.channels.contains_key(x));
                assert(tracked_somewhere(m, x));
            }
        }
    }
}

/// Calling off an execution keeps the scheduler consistent.
pub proof fn lemma_abandon_consistent(m: Model, id: ChannelId)
    requires
        consistent(m),
    ensures
        consistent(abandon_step(m, id).0),
{
    let n = abandon_step(m, id).0;
    if m.in_flight.contains(id) {
        let at = m.in_flight.index_of(id);
        lemma_remove_contains(m.in_flight, at);
        assert(flying_right(m, id));
        if m.cache.contains_key(id) {
            assert(cached_right(m, id));
        }
        assert forall|x: ChannelId| #[trigger] n.channels.contains_key(x) implies n.channels[x].id
            == x by {
            if m.channels.contains_key(x) {
                assert(m.channels[x].id == x);
            }
        }
        assert forall|x: ChannelId| #[trigger] n.cache.contains_key(x) implies cached_right(
            n,
            x,
        ) by {
            if x != id {
                assert(m.cache.contains_key(x));
                assert(cached_right(m, x));
            }
        }
        assert forall|x: ChannelId| #[trigger] n.in_flight.contains(x) implies flying_right(
            n,
            x,
        ) by {
            assert(m.in_flight.contains(x));
            assert(flying_right(m, x));
        }
        assert forall|x: ChannelId| #[trigger] n.pending.contains(x) implies pending_right(
            n,
            x,
        ) by {
            assert(pending_right(m, x));
        }
        assert forall|x: ChannelId| #[trigger]
            n.channels.contains_key(x) && n.channels[x].status
                is Active implies tracked_somewhere(n, x) by {
            if x != id {
                assert(m.channels.contains_key(x));
                assert(tracked_somewhere(m, x));
            }
        }
    }
}

/// No candidate of a tick is under a live lease, so the dispatch never meets
/// one that it has to pass over for that: as long as the leases end at a
/// moment that there is, it sends out the first candidates, as many as there
/// are places.
pub proof fn lemma_dispatch_meets_no_live_lease(m: Model)
    requires
        consistent(m),
        m.state is Ticking,
        m.tick_time + m.config.lease_ttl <= u64::MAX,
    ensures
        forall|id: ChannelId| #[trigger]
            m.pending.contains(id) ==> !lease_live(m.channels[id].lease, m.tick_time),
        dispatch_targets(m) == m.pending.take(
            if free_places(m) < m.pending.len() {
                free_places(m)
            } else {
                m.pending.len() as int
            },
        ),
{
    assert forall|id: ChannelId| #[trigger] m.pending.contains(id) implies !lease_live(
        m.channels[id].lease,
        m.tick_time,
    ) && m.channels.contains_key(id) by {
        assert(pending_right(m, id));
    }
    lemma_plan_takes_first(
        m.pending,
        m.channels,
        m.tick_time,
        m.config.lease_ttl,
        free_places(m),
    );
}

proof fn lemma_plan_takes_first(
    candidates: Seq<ChannelId>,
    channels: Map<ChannelId, Channel>,
    now: u64,
    ttl: u64,
    free: int,
)
    requires
        free >= 0,
        forall|id: ChannelId| #[trigger]
            candidates.contains(id) ==> channels.contains_key(id) && grantable(
                channels[id],
                now,
                ttl,
            ),
    ensures
        plan(candidates, channels, now, ttl, free) == candidates.take(
            if free < candidates.len() {
                free
            } else {
                candidates.len() as int
            },
        ),
    decreases candidates.len(),
{
    let p = plan(candidates, channels, now, ttl, free);
    let k = if free < candidates.len() { free } else { candidates.len() as int };
    if candidates.len() == 0 {
        assert(p =~= candidates.take(k));
    } else {
        let rest = candidates.drop_last();
        let last = candidates.last();
        assert forall|id: ChannelId| #[trigger] rest.contains(id) implies channels.contains_key(
            id,
        ) && grantable(channels[id], now, ttl) by {
            let i = rest.index_of(id);
            assert(candidates[i] == id);
            assert(candidates.contains(id));
        }
        lemma_plan_takes_first(rest, channels, now, ttl, free);
        assert(candidates.contains(last)) by {
            assert(candidates[candidates.len() - 1] == last);
        }
        assert(p =~= candidates.take(k));
    }
}

/// The candidates of a tick are exactly the channels of the cache that are
/// due and on which no lease is live; a channel that is held back stays in
/// the cache with its due time.
pub proof fn lemma_candidates_are_due_and_free(m: Model, now: u64, id: ChannelId)
    requires
        consistent(m),
        m.state is Idle,
        is_due_order(m.cache, now, due_order(m.cache, now)),
    ensures
        begin_tick_step(m, now).pending.contains(id) <==> m.cache.contains_key(id)
            && m.channels[id].due_at <= now && !lease_live(m.channels[id].lease, now),
        m.cache.contains_key(id) && lease_live(m.channels[id].lease, now) ==> begin_tick_step(
            m,
            now,
        ).cache.contains_key(id) && begin_tick_step(m, now).cache[id] == m.channels[id].due_at,
{
    let open = passable(m.cache, m.channels, now);
    lemma_candidates_are_in_order(m.cache, m.channels, now, due_order(m.cache, now));
    if m.cache.contains_key(id) {
        assert(cached_right(m, id));
    }
    if begin_tick_step(m, now).pending.contains(id) {
        assert(open.contains_key(id));
    }
    if m.cache.contains_key(id) && m.channels[id].due_at <= now && !lease_live(
        m.channels[id].lease,
        now,
    ) {
        assert(open.contains_key(id) && open[id] <= now);
    }
}

/// Of two channels that take part in scheduling, are not in flight, are both
/// due and are both free of a live lease, the one that the registry has due
/// earlier is the earlier candidate of the tick.
pub proof fn lemma_candidates_come_by_due_time(m: Model, now: u64, a: ChannelId, b: ChannelId)
    requires
        consistent(m),
        m.state is Idle,
        is_due_order(m.cache, now, due_order(m.cache, now)),
        m.channels.contains_key(a),
        m.channels.contains_key(b),
        m.channels[a].status is Active,
        m.channels[b].status is Active,
        !m.in_flight.contains(a),
        !m.in_flight.contains(b),
        !lease_live(m.channels[a].lease, now),
        !lease_live(m.channels[b].lease, now),
        m.channels[a].due_at < m.channels[b].due_at,
        m.channels[b].due_at <= now,
    ensures
        begin_tick_step(m, now).pending.contains(a),
        begin_tick_step(m, now).pending.contains(b),
        begin_tick_step(m, now).pending.index_of(a) < begin_tick_step(m, now).pending.index_of(
            b,
        ),
{
    let open = passable(m.cache, m.channels, now);
    lemma_candidates_are_in_order(m.cache, m.channels, now, due_order(m.cache, now));
    assert(tracked_somewhere(m, a));
    assert(tracked_somewhere(m, b));
    assert(m.cache.contains_key(a));
    assert(m.cache.contains_key(b));
    assert(cached_right(m, a));
    assert(cached_right(m, b));
    assert(open.contains_key(a) && open.contains_key(b));
    lemma_earlier_due_pops_first(open, now, begin_tick_step(m, now).pending, a, b);
}

/// A run that starts after a crash finds the channel that the crashed run
/// had leased: once the lease has run out and the channel is due, the next
/// tick has it among its candidates, once, and the lease can be had.
pub proof fn lemma_expired_lease_is_recovered(
    config: SchedulerConfig,
    holder: u64,
    channels: Map<ChannelId, Channel>,
    events: Seq<Event>,
    providers: Map<Address, ProviderId>,
    id: ChannelId,
    now: u64,
)
    requires
        keyed_by_id(channels),
        channels.contains_key(id),
        channels[id].status is Active,
        channels[id].lease matches LeaseState::Leased { expires_at, .. } && expires_at <= now,
        channels[id].due_at <= now,
        now + config.lease_ttl <= u64::MAX,
        is_due_order(projection(channels), now, due_order(projection(channels), now)),
    ensures
        ({
            let m = begin_tick_step(started(config, holder, channels, events, providers), now);
            &&& m.pending.contains(id)
            &&& m.pending.no_duplicates()
            &&& !m.cache.contains_key(id)
            &&& acquire_step(m.channels[id], holder, now, config.lease_ttl).1 == Ok::<
                LeaseOutcome,
                RegistryError,
            >(LeaseOutcome::LeaseGranted)
        }),
{
    let m0 = started(config, holder, channels, events, providers);
    let m = begin_tick_step(m0, now);
    let open = passable(m0.cache, m0.channels, now);
    lemma_candidates_are_in_order(m0.cache, m0.channels, now, due_order(m0.cache, now));
    assert(m0.cache.contains_key(id));
    assert(open.contains_key(id) && open[id] <= now);
    lemma_due_order_lists_once(open, now, m.pending);
}

/// No step loses a channel, and no step but a promotion moves a due time
/// back: a worker's report moves it forward or leaves it, everything else
/// leaves it.
pub proof fn lemma_due_time_is_kept(
    m: Model,
    id: ChannelId,
    now: u64,
    event: Event,
    reported: ChannelId,
    outcome: WorkerOutcome,
)
    requires
        consistent(m),
        m.channels.contains_key(id),
    ensures
        begin_tick_step(m, now).channels[id].due_at == m.channels[id].due_at,
        dispatch_step(m).channels.contains_key(id),
        dispatch_step(m).channels[id].due_at == m.channels[id].due_at,
        finish_tick_step(m).channels[id].due_at == m.channels[id].due_at,
        ingest_step(m, event, now).channels.contains_key(id),
        ingest_step(m, event, now).channels[id].due_at == m.channels[id].due_at,
        complete_step(m, reported, outcome, now).0.channels.contains_key(id),
        complete_step(m, reported, outcome, now).0.channels[id].due_at >= m.channels[id].due_at,
        abandon_step(m, reported).0.channels.contains_key(id),
        abandon_step(m, reported).0.channels[id].due_at == m.channels[id].due_at,
{
}

/// A promotion moves the due time of its channel back, to the time that was
/// asked for, and touches no other channel.
pub proof fn lemma_promotion_moves_back(m: Model, id: ChannelId, due_at: u64, other: ChannelId)
    requires
        consistent(m),
        m.channels.contains_key(other),
    ensures
        promote_step(m, id, due_at).channels.contains_key(other),
        promote_step(m, id, due_at).channels[other].due_at == (if other == id && due_at
            < m.channels[id].due_at && m.channels[id].status is Active {
            due_at
        } else {
            m.channels[other].due_at
        }),
{
}

/// An event that was handed in is stored afterwards, and so is every event
/// that was stored before.
pub proof fn lemma_ingest_stores(m: Model, event: Event, now: u64)
    ensures
        stored(ingest_step(m, event, now).events, event.key),
        forall|i: int|
            0 <= i < m.events.len() ==> stored(
                ingest_step(m, event, now).events,
                (#[trigger] m.events[i]).key,
            ),
{
    let after = ingest_step(m, event, now).events;
    if !stored(m.events, event.key) {
        assert(after[m.events.len() as int].key == event.key);
    }
    assert forall|i: int| 0 <= i < m.events.len() implies stored(
        after,
        (#[trigger] m.events[i]).key,
    ) by {
        assert(after[i].key == m.events[i].key);
    }
}

/// Whatever else a batch holds, the event of every log in it that can be
/// decoded is stored once the batch is through: a malformed log stops
/// nothing.
pub proof fn lemma_every_wellformed_log_is_stored(
    m: Model,
    kind: EventKind,
    logs: Seq<RawLog>,
    now: u64,
    i: int,
)
    requires
        0 <= i < logs.len(),
        decoded(kind, logs[i]) is Ok,
    ensures
        stored(ingest_logs_step(m, kind, logs, now).events, decoded(kind, logs[i])->Ok_0.key),
    decreases logs.len(),
{
    let before = ingest_logs_step(m, kind, logs.drop_last(), now);
    let key = decoded(kind, logs[i])->Ok_0.key;
    if i == logs.len() - 1 {
        lemma_ingest_stores(before, decoded(kind, logs[i])->Ok_0, now);
    } else {
        assert(logs.drop_last()[i] == logs[i]);
        lemma_every_wellformed_log_is_stored(m, kind, logs.drop_last(), now, i);
        match decoded(kind, logs.last()) {
            Ok(event) => {
                lemma_ingest_stores(before, event, now);
                let j = choose|j: int|
                    0 <= j < before.events.len() && (#[trigger] before.events[j]).key == key;
                assert(stored(ingest_step(before, event, now).events, before.events[j].key));
            },
            Err(_) => {},
        }
    }
}

/// How many of the logs can be decoded.
pub open spec fn wellformed_count(kind: EventKind, logs: Seq<RawLog>) -> int
    decreases logs.len(),
{
    if logs.len() == 0 {
        0
    } else if decoded(kind, logs.last()) is Ok {
        wellformed_count(kind, logs.drop_last()) + 1
    } else {
        wellformed_count(kind, logs.drop_last())
    }
}

/// Every log of a batch is counted once: the ones that can be decoded as
/// stored or as known already, the others as skipped.
pub proof fn lemma_batch_counts_every_log(m: Model, kind: EventKind, logs: Seq<RawLog>, now: u64)
    ensures
        batch_counts(m, kind, logs, now).0 >= 0,
        batch_counts(m, kind, logs, now).1 >= 0,
        batch_counts(m, kind, logs, now).0 + batch_counts(m, kind, logs, now).1
            == wellformed_count(kind, logs),
        batch_counts(m, kind, logs, now).2 == logs.len() - wellformed_count(kind, logs),
    decreases logs.len(),
{
    if logs.len() > 0 {
        lemma_batch_counts_every_log(m, kind, logs.drop_last(), now);
    }
}

/// A batch whose events are all stored already changes nothing, and none of
/// its logs counts as stored anew.
proof fn lemma_known_batch_changes_nothing(
    m: Model,
    kind: EventKind,
    logs: Seq<RawLog>,
    now: u64,
)
    requires
        forall|i: int|
            0 <= i < logs.len() && decoded(kind, #[trigger] logs[i]) is Ok ==> stored(
                m.events,
                decoded(kind, logs[i])->Ok_0.key,
            ),
    ensures
        ingest_logs_step(m, kind, logs, now) == m,
        batch_counts(m, kind, logs, now).0 == 0,
    decreases logs.len(),
{
    if logs.len() > 0 {
        let rest = logs.drop_last();
        assert forall|i: int|
            0 <= i < rest.len() && decoded(kind, #[trigger] rest[i]) is Ok implies stored(
            m.events,
            decoded(kind, rest[i])->Ok_0.key,
        ) by {
            assert(rest[i] == logs[i]);
        }
        lemma_known_batch_changes_nothing(m, kind, rest, now);
        assert(logs.last() == logs[logs.len() - 1]);
    }
}

/// A batch that is handed in a second time changes nothing: every event of
/// it is stored once, by the first time, and the second time each log that
/// can be decoded is found present.
pub proof fn lemma_batch_twice_changes_nothing(
    m: Model,
    kind: EventKind,
    logs: Seq<RawLog>,
    first: u64,
    second: u64,
)
    ensures
        ingest_logs_step(ingest_logs_step(m, kind, logs, first), kind, logs, second)
            == ingest_logs_step(m, kind, logs, first),
        batch_counts(ingest_logs_step(m, kind, logs, first), kind, logs, second) == (
            0int,
            batch_counts(m, kind, logs, first).0 + batch_counts(m, kind, logs, first).1,
            batch_counts(m, kind, logs, first).2,
        ),
{
    let once = ingest_logs_step(m, kind, logs, first);
    assert forall|i: int|
        0 <= i < logs.len() && decoded(kind, #[trigger] logs[i]) is Ok implies stored(
        once.events,
        decoded(kind, logs[i])->Ok_0.key,
    ) by {
        lemma_every_wellformed_log_is_stored(m, kind, logs, first, i);
    }
    lemma_known_batch_changes_nothing(once, kind, logs, second);
    lemma_batch_counts_every_log(m, kind, logs, first);
    lemma_batch_counts_every_log(once, kind, logs, second);
}

} // verus!
