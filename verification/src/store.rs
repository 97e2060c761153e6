//! The event store: every event once, in the order in which it came.

use vstd::prelude::*;
use crate::assoc::{assoc, lemma_assoc_at, lemma_assoc_insert};
use crate::event::{same_key, Event, EventBody, EventKey};
use crate::ident::{bytes_eq, Address, ChannelId, ProviderId};
use crate::registry::{opened, Channel, Registry};
use crate::time::{after, moment_after};

verus! {

/// A registered provider.
#[derive(Clone, Copy, Debug, PartialEq, Eq)]
pub struct Provider {
    pub address: Address,
    pub provider_id: ProviderId,
}

/// What became of an event that was handed to the store.
#[derive(Clone, Copy, Debug, PartialEq, Eq)]
pub enum IngestOutcome {
    Inserted,
    AlreadyPresent,
}

/// An event with this key is among `events`.
pub open spec fn stored(events: Seq<Event>, key: EventKey) -> bool {
    exists|i: int| 0 <= i < events.len() && (#[trigger] events[i]).key == key
}

/// Exactly one of `events` has this key.
pub open spec fn stored_once(events: Seq<Event>, key: EventKey) -> bool {
    exists|i: int|
        0 <= i < events.len() && (#[trigger] events[i]).key == key && forall|j: int|
            0 <= j < events.len() && (#[trigger] events[j]).key == key ==> j == i
}

/// No two of `events` share a key.
pub open spec fn keys_distinct(events: Seq<Event>) -> bool {
    forall|i: int, j: int|
        0 <= i < j < events.len() ==> (#[trigger] events[i]).key != (#[trigger] events[j]).key
}

/// The events after `event` was handed in: as before where its key is known,
/// else with `event` at the end.
pub open spec fn events_after(events: Seq<Event>, event: Event) -> Seq<Event> {
    if stored(events, event.key) {
        events
    } else {
        events.push(event)
    }
}

/// The answer to handing in `event`.
pub open spec fn ingest_outcome(events: Seq<Event>, event: Event) -> IngestOutcome {
    if stored(events, event.key) {
        IngestOutcome::AlreadyPresent
    } else {
        IngestOutcome::Inserted
    }
}

/// The providers once a new `event` is stored. A provider that is known
/// stays as it was first registered.
pub open spec fn providers_after(providers: Map<Address, ProviderId>, event: Event) -> Map<
    Address,
    ProviderId,
> {
    match event.body {
        EventBody::ProviderRegistered { address, provider_id } => if providers.contains_key(
            address,
        ) {
            providers
        } else {
            providers.insert(address, provider_id)
        },
        EventBody::ChannelOpened { .. } => providers,
    }
}

/// The channels once a new `event` is stored. A channel that is opened gets
/// its row and falls due at `due_at`; one that is known keeps its due time
/// and its lease, and only remembers the event.
pub open spec fn channels_after(channels: Map<ChannelId, Channel>, event: Event, due_at: u64) -> Map<
    ChannelId,
    Channel,
> {
    match event.body {
        EventBody::ProviderRegistered { .. } => channels,
        EventBody::ChannelOpened { channel_id } => if channels.contains_key(channel_id) {
            channels.insert(
                channel_id,
                Channel { cursor: Some(event.key), ..channels[channel_id] },
            )
        } else {
            channels.insert(channel_id, opened(channel_id, due_at, Some(event.key)))
        },
    }
}

/// An event that is handed in twice is stored once: the second time it is
/// found present and nothing is written.
pub proof fn lemma_ingest_twice_stores_once(events: Seq<Event>, event: Event)
    requires
        keys_distinct(events),
    ensures
        stored_once(events_after(events, event), event.key),
        ingest_outcome(events_after(events, event), event) is AlreadyPresent,
        events_after(events_after(events, event), event) == events_after(events, event),
        keys_distinct(events_after(events, event)),
{
    let after = events_after(events, event);
    if stored(events, event.key) {
        let i = choose|i: int| 0 <= i < events.len() && (#[trigger] events[i]).key == event.key;
        assert forall|j: int| 0 <= j < events.len() && (#[trigger] events[j]).key
            == event.key implies j == i by {
            if j < i {
                assert(events[j].key != events[i].key);
            } else if i < j {
                assert(events[i].key != events[j].key);
            }
        }
        assert(0 <= i < after.len() && after[i].key == event.key);
    } else {
        let n = events.len() as int;
        assert(after[n].key == event.key);
        assert forall|j: int| 0 <= j < after.len() && (#[trigger] after[j]).key
            == event.key implies j == n by {
            if j < n {
                assert(events[j].key == event.key);
            }
        }
        assert forall|i: int, j: int| 0 <= i < j < after.len() implies (#[trigger] after[i]).key != (
        #[trigger] after[j]).key by {
            if j == n {
                assert(events[i].key != event.key);
            } else {
                assert(events[i].key != events[j].key);
            }
        }
        assert(stored(after, event.key));
    }
}

/// The addresses of the providers, in their order.
pub open spec fn provider_addresses(rows: Seq<Provider>) -> Seq<Address> {
    rows.map_values(|p: Provider| p.address)
}

/// The identifiers of the providers, in their order.
pub open spec fn provider_ids(rows: Seq<Provider>) -> Seq<ProviderId> {
    rows.map_values(|p: Provider| p.provider_id)
}

/// The events that were ingested and the providers that they registered.
pub struct EventStore {
    log: Vec<Event>,
    registered: Vec<Provider>,
}

impl EventStore {
    /// The stored events, oldest first.
    pub closed spec fn events(&self) -> Seq<Event> {
        self.log@
    }

    /// The provider that is registered under each address.
    pub closed spec fn providers(&self) -> Map<Address, ProviderId> {
        assoc(provider_addresses(self.registered@), provider_ids(self.registered@))
    }

    /// No key is stored twice and no address is registered twice.
    pub closed spec fn wf(&self) -> bool {
        &&& keys_distinct(self.log@)
        &&& provider_addresses(self.registered@).no_duplicates()
    }

    /// No two stored events share a key.
    pub proof fn lemma_keys_distinct(&self)
        requires
            self.wf(),
        ensures
            keys_distinct(self.events()),
    {
    }

    /// A store without events.
    pub fn new() -> (store: Self)
        ensures
            store.wf(),
            store.events() == Seq::<Event>::empty(),
            store.providers() == Map::<Address, ProviderId>::empty(),
    {
        let store = EventStore { log: Vec::new(), registered: Vec::new() };
        assert(store.providers() =~= Map::<Address, ProviderId>::empty());
        store
    }

    /// A store that holds `events` and `providers`, unless two events share a
    /// key or two providers an address.
    pub fn from_rows(events: Vec<Event>, providers: Vec<Provider>) -> (store: Option<EventStore>)
        ensures
            match store {
                Some(s) => s.wf() && keys_distinct(events@) && provider_addresses(
                    providers@,
                ).no_duplicates() && s.events() == events@ && s.providers() == assoc(
                    provider_addresses(providers@),
                    provider_ids(providers@),
                ),
                None => !keys_distinct(events@) || !provider_addresses(
                    providers@,
                ).no_duplicates(),
            },
    {
        let mut i: usize = 0;
        while i < events.len()
            invariant
                i <= events@.len(),
                forall|p: int, q: int|
                    0 <= p < q < i ==> (#[trigger] events@[p]).key != (#[trigger] events@[q]).key,
            decreases events@.len() - i,
        {
            let mut j: usize = 0;
            while j < i
                invariant
                    j <= i,
                    i < events@.len(),
                    forall|p: int|
                        0 <= p < j ==> (#[trigger] events@[p]).key != events@[i as int].key,
                decreases i - j,
            {
                if same_key(&events[j].key, &events[i].key) {
                    return None;
                }
                j = j + 1;
            }
            i = i + 1;
        }
        let mut i: usize = 0;
        while i < providers.len()
            invariant
                i <= providers@.len(),
                keys_distinct(events@),
                forall|p: int, q: int|
                    0 <= p < q < i ==> (#[trigger] providers@[p]).address != (
                    #[trigger] providers@[q]).address,
            decreases providers@.len() - i,
        {
            let mut j: usize = 0;
            while j < i
                invariant
                    j <= i,
                    i < providers@.len(),
                    forall|p: int|
                        0 <= p < j ==> (#[trigger] providers@[p]).address
                            != providers@[i as int].address,
                decreases i - j,
            {
                if bytes_eq(&providers[j].address, &providers[i].address) {
                    proof {
                        let keys = provider_addresses(providers@);
                        assert(keys[j as int] == keys[i as int]);
                    }
                    return None;
                }
                j = j + 1;
            }
            i = i + 1;
        }
        proof {
            let keys = provider_addresses(providers@);
            assert forall|p: int, q: int| 0 <= p < keys.len() && 0 <= q < keys.len() && p
                != q implies keys[p] != keys[q] by {
                if p < q {
                    assert(providers@[p].address != providers@[q].address);
                } else {
                    assert(providers@[q].address != providers@[p].address);
                }
            }
        }
        Some(EventStore { log: events, registered: providers })
    }

    /// The registered providers, each address once.
    pub fn registered(&self) -> (providers: Vec<Provider>)
        requires
            self.wf(),
        ensures
            provider_addresses(providers@).no_duplicates(),
            assoc(provider_addresses(providers@), provider_ids(providers@)) == self.providers(),
    {
        let mut providers: Vec<Provider> = Vec::new();
        let mut i: usize = 0;
        while i < self.registered.len()
            invariant
                i <= self.registered@.len(),
                providers@ == self.registered@.subrange(0, i as int),
            decreases self.registered@.len() - i,
        {
            providers.push(self.registered[i]);
            assert(providers@ =~= self.registered@.subrange(0, i + 1));
            i = i + 1;
        }
        assert(providers@ =~= self.registered@);
        providers
    }

    /// The number of stored events.
    pub fn len(&self) -> (n: usize)
        ensures
            n == self.events().len(),
    {
        self.log.len()
    }

    /// The stored events, oldest first.
    pub fn recorded(&self) -> (events: Vec<Event>)
        ensures
            events@ == self.events(),
    {
        let mut events: Vec<Event> = Vec::new();
        let mut i: usize = 0;
        while i < self.log.len()
            invariant
                i <= self.log@.len(),
                events@ == self.log@.subrange(0, i as int),
            decreases self.log@.len() - i,
        {
            events.push(self.log[i]);
            assert(events@ =~= self.log@.subrange(0, i + 1));
            i = i + 1;
        }
        assert(events@ =~= self.log@);
        events
    }

    /// Whether an event with this key is stored.
    pub fn contains(&self, key: &EventKey) -> (found: bool)
        ensures
            found == stored(self.events(), *key),
    {
        let mut i: usize = 0;
        while i < self.log.len()
            invariant
                i <= self.log@.len(),
                forall|j: int| 0 <= j < i ==> (#[trigger] self.log@[j]).key != *key,
            decreases self.log@.len() - i,
        {
            if same_key(&self.log[i].key, key) {
                return true;
            }
            i = i + 1;
        }
        false
    }

    /// The provider that is registered under `address`.
    pub fn provider(&self, address: &Address) -> (provider_id: Option<ProviderId>)
        requires
            self.wf(),
        ensures
            provider_id == (if self.providers().contains_key(*address) {
                Some(self.providers()[*address])
            } else {
                None
            }),
    {
        let mut i: usize = 0;
        while i < self.registered.len()
            invariant
                self.wf(),
                i <= self.registered@.len(),
                forall|j: int| 0 <= j < i ==> self.registered@[j].address != *address,
            decreases self.registered@.len() - i,
        {
            if bytes_eq(&self.registered[i].address, address) {
                proof {
                    let keys = provider_addresses(self.registered@);
                    assert(keys[i as int] == *address);
                    lemma_assoc_at(keys, provider_ids(self.registered@), i as int);
                }
                return Some(self.registered[i].provider_id);
            }
            i = i + 1;
        }
        None
    }

    /// Registers a provider, unless its address is registered already.
    fn register(&mut self, address: Address, provider_id: ProviderId)
        requires
            old(self).wf(),
        ensures
            final(self).wf(),
            final(self).events() == old(self).events(),
            final(self).providers() == (if old(self).providers().contains_key(address) {
                old(self).providers()
            } else {
                old(self).providers().insert(address, provider_id)
            }),
    {
        if self.provider(&address).is_none() {
            proof {
                let rows = self.registered@;
                let n = rows.len() as int;
                let row = Provider { address, provider_id };
                assert(provider_addresses(rows.push(row)) =~= provider_addresses(rows).insert(
                    n,
                    address,
                ));
                assert(provider_ids(rows.push(row)) =~= provider_ids(rows).insert(n, provider_id));
                lemma_assoc_insert(
                    provider_addresses(rows),
                    provider_ids(rows),
                    n,
                    address,
                    provider_id,
                );
            }
            self.registered.push(Provider { address, provider_id });
        }
    }

    /// Takes in an event. One whose key is stored already is left out and
    /// changes nothing. A new one is stored behind the others; where it
    /// registers a provider the provider is recorded, and where it opens a
    /// channel the channel gets its row in `registry`, due `initial_due_offset`
    /// after `now`.
    pub fn ingest(
        &mut self,
        registry: &mut Registry,
        event: Event,
        now: u64,
        initial_due_offset: u64,
    ) -> (outcome: IngestOutcome)
        requires
            old(self).wf(),
            old(registry).wf(),
        ensures
            final(self).wf(),
            final(registry).wf(),
            outcome == ingest_outcome(old(self).events(), event),
            final(self).events() == events_after(old(self).events(), event),
            outcome is AlreadyPresent ==> final(self).providers() == old(self).providers()
                && final(registry)@ == old(registry)@,
            outcome is Inserted ==> final(self).providers() == providers_after(
                old(self).providers(),
                event,
            ) && final(registry)@ == channels_after(
                old(registry)@,
                event,
                moment_after(now, initial_due_offset),
            ),
    {
        if self.contains(&event.key) {
            return IngestOutcome::AlreadyPresent;
        }
        proof {
            lemma_ingest_twice_stores_once(self.log@, event);
            registry.lemma_keyed_by_id();
        }
        self.log.push(event);
        match event.body {
            EventBody::ProviderRegistered { address, provider_id } => {
                self.register(address, provider_id);
            },
            EventBody::ChannelOpened { channel_id } => {
                let row = match registry.get(&channel_id) {
                    Some(known) => Channel { cursor: Some(event.key), ..known },
                    None => Channel::open(
                        channel_id,
                        after(now, initial_due_offset),
                        Some(event.key),
                    ),
                };
                registry.put(row);
            },
        }
        IngestOutcome::Inserted
    }
}

} // verus!
