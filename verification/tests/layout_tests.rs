use sentinel::event::EventBody;
use sentinel::layout::{
    decode_event, encode_event, lease_columns, lease_from_columns, status_code, status_from_code,
};
use sentinel::registry::{ChannelStatus, LeaseState};

#[test]
fn a_registration_is_laid_out_as_address_and_provider() {
    let body = EventBody::ProviderRegistered { address: [3; 20], provider_id: [4; 32] };
    let (kind, payload) = encode_event(&body);
    assert_eq!(kind, 0);
    let mut expected = vec![3u8; 20];
    expected.extend_from_slice(&[4u8; 32]);
    assert_eq!(payload, expected);
    assert_eq!(decode_event(kind, &payload), Some(body));
}

#[test]
fn an_opening_is_laid_out_as_its_channel() {
    let mut channel_id = [0u8; 32];
    for (i, byte) in channel_id.iter_mut().enumerate() {
        *byte = i as u8;
    }
    let body = EventBody::ChannelOpened { channel_id };
    let (kind, payload) = encode_event(&body);
    assert_eq!(kind, 1);
    assert_eq!(payload, channel_id.to_vec());
    assert_eq!(decode_event(kind, &payload), Some(body));
}

#[test]
fn bytes_that_are_no_event_give_nothing() {
    assert_eq!(decode_event(0, &vec![0u8; 32]), None);
    assert_eq!(decode_event(1, &vec![0u8; 52]), None);
    assert_eq!(decode_event(0, &vec![0u8; 51]), None);
    assert_eq!(decode_event(1, &vec![0u8; 33]), None);
    assert_eq!(decode_event(2, &vec![0u8; 32]), None);
    assert_eq!(decode_event(0, &Vec::new()), None);
}

#[test]
fn a_registration_is_read_back_byte_by_byte() {
    let payload: Vec<u8> = (0u8..52).collect();
    let expected = EventBody::ProviderRegistered {
        address: <[u8; 20]>::try_from(&payload[..20]).unwrap(),
        provider_id: <[u8; 32]>::try_from(&payload[20..]).unwrap(),
    };
    assert_eq!(decode_event(0, &payload), Some(expected));
}

#[test]
fn a_status_is_kept_under_its_code() {
    assert_eq!(status_code(ChannelStatus::Active), 0);
    assert_eq!(status_code(ChannelStatus::Closed), 1);
    assert_eq!(status_code(ChannelStatus::Stuck), 2);
    for status in [ChannelStatus::Active, ChannelStatus::Closed, ChannelStatus::Stuck] {
        assert_eq!(status_from_code(status_code(status)), Some(status));
    }
    assert_eq!(status_from_code(3), None);
    assert_eq!(status_from_code(255), None);
}

#[test]
fn a_lease_is_kept_in_three_columns() {
    let lease = LeaseState::Leased { holder: 7, acquired_at: 100, expires_at: 130 };
    assert_eq!(lease_columns(lease), (Some(7), Some(100), Some(130)));
    assert_eq!(lease_columns(LeaseState::Free), (None, None, None));
    assert_eq!(lease_from_columns(Some(7), Some(100), Some(130)), Some(lease));
    assert_eq!(lease_from_columns(None, None, None), Some(LeaseState::Free));
    assert_eq!(lease_from_columns(Some(7), None, Some(130)), None);
    assert_eq!(lease_from_columns(None, None, Some(130)), None);
    assert_eq!(lease_from_columns(Some(7), Some(100), None), None);
}
