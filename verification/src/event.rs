//! Chain logs and the events that are decoded from them.

use vstd::prelude::*;
use crate::ident::{Address, ChannelId, ProviderId, TxHash};

verus! {

/// Where a log stands on the chain. No two logs share a key, so an event that
/// is delivered again is known by it.
#[derive(Clone, Copy, Debug, PartialEq, Eq)]
pub struct EventKey {
    pub tx_hash: TxHash,
    pub log_index: u64,
}

/// The two classes of event that the contract emits.
#[derive(Clone, Copy, Debug, PartialEq, Eq)]
pub enum EventKind {
    ProviderRegistered,
    ChannelOpened,
}

/// What an event says.
#[derive(Clone, Copy, Debug, PartialEq, Eq)]
pub enum EventBody {
    ProviderRegistered { address: Address, provider_id: ProviderId },
    ChannelOpened { channel_id: ChannelId },
}

/// A decoded event.
#[derive(Clone, Copy, Debug, PartialEq, Eq)]
pub struct Event {
    pub key: EventKey,
    pub body: EventBody,
}

/// A log record as the chain client hands it over. A topic is a word of
/// thirty-two bytes; one of another length makes the log malformed.
#[derive(Clone, Debug, PartialEq, Eq)]
pub struct RawLog {
    pub address: Address,
    pub topics: Vec<Vec<u8>>,
    pub data: Vec<u8>,
    pub transaction_hash: Option<TxHash>,
    pub log_index: Option<u64>,
}

/// Why a log could not be decoded.
#[derive(Clone, Copy, Debug, PartialEq, Eq)]
pub enum MalformedLog {
    /// The log has fewer than the two topics of an event: its signature and
    /// the identifier it is about.
    MissingTopic,
    /// A topic is not thirty-two bytes long.
    TopicLength,
    /// The log names no transaction.
    MissingTransactionHash,
    /// The log has no index.
    MissingLogIndex,
}

/// Every topic is thirty-two bytes long.
pub open spec fn topics_are_words(topics: Seq<Vec<u8>>) -> bool {
    forall|i: int| 0 <= i < topics.len() ==> (#[trigger] topics[i])@.len() == 32
}

/// The word that holds these thirty-two bytes.
pub open spec fn word_of(bytes: Seq<u8>) -> [u8; 32] {
    choose|word: [u8; 32]| word@ == bytes
}

/// The event of class `kind` that a log stands for. The first topic is the
/// event's signature, the second the provider or channel that the event is
/// about.
pub open spec fn decoded(kind: EventKind, log: RawLog) -> Result<Event, MalformedLog> {
    if log.topics@.len() < 2 {
        Err(MalformedLog::MissingTopic)
    } else if !topics_are_words(log.topics@) {
        Err(MalformedLog::TopicLength)
    } else if log.transaction_hash is None {
        Err(MalformedLog::MissingTransactionHash)
    } else if log.log_index is None {
        Err(MalformedLog::MissingLogIndex)
    } else {
        Ok(
            Event {
                key: EventKey {
                    tx_hash: log.transaction_hash->0,
                    log_index: log.log_index->0,
                },
                body: match kind {
                    EventKind::ProviderRegistered => EventBody::ProviderRegistered {
                        address: log.address,
                        provider_id: word_of(log.topics@[1]@),
                    },
                    EventKind::ChannelOpened => EventBody::ChannelOpened {
                        channel_id: word_of(log.topics@[1]@),
                    },
                },
            },
        )
    }
}

/// Reads a topic as a word.
pub fn word_from_topic(topic: &Vec<u8>) -> (word: Option<[u8; 32]>)
    ensures
        match word {
            Some(w) => topic@.len() == 32 && w@ == topic@ && w == word_of(topic@),
            None => topic@.len() != 32,
        },
{
    if topic.len() != 32 {
        return None;
    }
    let mut word: [u8; 32] = [0u8; 32];
    let mut i: usize = 0;
    while i < 32
        invariant
            i <= 32,
            topic@.len() == 32,
            forall|j: int| 0 <= j < i ==> word@[j] == topic@[j],
        decreases 32 - i,
    {
        word[i] = topic[i];
        i = i + 1;
    }
    assert(word@ =~= topic@);
    assert(word =~= word_of(topic@));
    Some(word)
}

/// Whether every topic of the log is a word.
fn all_words(topics: &Vec<Vec<u8>>) -> (all: bool)
    ensures
        all == topics_are_words(topics@),
{
    let mut i: usize = 0;
    while i < topics.len()
        invariant
            i <= topics@.len(),
            forall|j: int| 0 <= j < i ==> (#[trigger] topics@[j])@.len() == 32,
        decreases topics@.len() - i,
    {
        if topics[i].len() != 32 {
            return false;
        }
        i = i + 1;
    }
    true
}

/// Decodes a log as an event of class `kind`.
pub fn decode_log(kind: EventKind, log: &RawLog) -> (event: Result<Event, MalformedLog>)
    ensures
        event == decoded(kind, *log),
{
    if log.topics.len() < 2 {
        return Err(MalformedLog::MissingTopic);
    }
    if !all_words(&log.topics) {
        return Err(MalformedLog::TopicLength);
    }
    let tx_hash = match log.transaction_hash {
        Some(hash) => hash,
        None => {
            return Err(MalformedLog::MissingTransactionHash);
        },
    };
    let log_index = match log.log_index {
        Some(index) => index,
        None => {
            return Err(MalformedLog::MissingLogIndex);
        },
    };
    let subject = match word_from_topic(&log.topics[1]) {
        Some(word) => word,
        None => {
            return Err(MalformedLog::TopicLength);
        },
    };
    let body = match kind {
        EventKind::ProviderRegistered => EventBody::ProviderRegistered {
            address: log.address,
            provider_id: subject,
        },
        EventKind::ChannelOpened => EventBody::ChannelOpened { channel_id: subject },
    };
    Ok(Event { key: EventKey { tx_hash, log_index }, body })
}

/// Whether two keys name the same log.
pub fn same_key(a: &EventKey, b: &EventKey) -> (same: bool)
    ensures
        same == (*a == *b),
{
    a.log_index == b.log_index && crate::ident::bytes_eq(&a.tx_hash, &b.tx_hash)
}

} // verus!
