use sentinel::event::{
    decode_log, same_key, word_from_topic, Event, EventBody, EventKey, EventKind, MalformedLog,
    RawLog,
};

fn log(topics: Vec<[u8; 32]>) -> RawLog {
    RawLog {
        address: [0xaa; 20],
        topics: topics.iter().map(|topic| topic.to_vec()).collect(),
        data: vec![1, 2, 3],
        transaction_hash: Some([0x11; 32]),
        log_index: Some(4),
    }
}

#[test]
fn decodes_a_provider_registration() {
    let event = decode_log(EventKind::ProviderRegistered, &log(vec![[0; 32], [7; 32]]));
    assert_eq!(
        event,
        Ok(Event {
            key: EventKey { tx_hash: [0x11; 32], log_index: 4 },
            body: EventBody::ProviderRegistered { address: [0xaa; 20], provider_id: [7; 32] },
        })
    );
}

#[test]
fn decodes_a_channel_opening() {
    let event = decode_log(EventKind::ChannelOpened, &log(vec![[0; 32], [7; 32], [8; 32]]));
    assert_eq!(
        event,
        Ok(Event {
            key: EventKey { tx_hash: [0x11; 32], log_index: 4 },
            body: EventBody::ChannelOpened { channel_id: [7; 32] },
        })
    );
}

#[test]
fn a_log_without_its_second_topic_is_malformed() {
    assert_eq!(
        decode_log(EventKind::ChannelOpened, &log(vec![[0; 32]])),
        Err(MalformedLog::MissingTopic)
    );
    assert_eq!(
        decode_log(EventKind::ProviderRegistered, &log(Vec::new())),
        Err(MalformedLog::MissingTopic)
    );
}

#[test]
fn a_log_without_a_place_on_the_chain_is_malformed() {
    let mut pending = log(vec![[0; 32], [7; 32]]);
    pending.log_index = None;
    assert_eq!(
        decode_log(EventKind::ChannelOpened, &pending),
        Err(MalformedLog::MissingLogIndex)
    );
    pending.transaction_hash = None;
    assert_eq!(
        decode_log(EventKind::ChannelOpened, &pending),
        Err(MalformedLog::MissingTransactionHash)
    );
    pending.topics = Vec::new();
    assert_eq!(
        decode_log(EventKind::ChannelOpened, &pending),
        Err(MalformedLog::MissingTopic)
    );
}

#[test]
fn keys_are_the_same_when_hash_and_index_are() {
    let key = EventKey { tx_hash: [1; 32], log_index: 2 };
    let mut other_hash = [1; 32];
    other_hash[31] = 0;
    assert!(same_key(&key, &EventKey { tx_hash: [1; 32], log_index: 2 }));
    assert!(!same_key(&key, &EventKey { tx_hash: [1; 32], log_index: 3 }));
    assert!(!same_key(&key, &EventKey { tx_hash: other_hash, log_index: 2 }));
}

#[test]
fn a_topic_of_the_wrong_length_is_malformed() {
    let mut short = log(vec![[0; 32], [7; 32]]);
    short.topics[1].pop();
    assert_eq!(decode_log(EventKind::ChannelOpened, &short), Err(MalformedLog::TopicLength));
    let mut long = log(vec![[0; 32], [7; 32], [8; 32]]);
    long.topics[2].push(0);
    assert_eq!(decode_log(EventKind::ProviderRegistered, &long), Err(MalformedLog::TopicLength));
    long.transaction_hash = None;
    assert_eq!(decode_log(EventKind::ProviderRegistered, &long), Err(MalformedLog::TopicLength));
    long.topics.truncate(1);
    assert_eq!(decode_log(EventKind::ProviderRegistered, &long), Err(MalformedLog::MissingTopic));
}

#[test]
fn a_topic_is_read_as_a_word() {
    let bytes: Vec<u8> = (0u8..32).collect();
    let word = word_from_topic(&bytes).unwrap();
    assert_eq!(word.to_vec(), bytes);
    assert_eq!(word_from_topic(&bytes[..31].to_vec()), None);
    assert_eq!(word_from_topic(&Vec::new()), None);
    assert_eq!(word_from_topic(&vec![0u8; 33]), None);
}
