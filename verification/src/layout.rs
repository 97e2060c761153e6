//! How events, leases and the status of a channel are laid out in the rows
//! in which they are kept, and how they are read back from them.

use vstd::prelude::*;
use crate::event::{word_of, EventBody};
use crate::ident::Address;
use crate::registry::{ChannelStatus, LeaseState};

verus! {

/// The kind under which an event is kept: 0 for a registration, 1 for an
/// opening.
pub open spec fn kind_of(body: EventBody) -> u8 {
    match body {
        EventBody::ProviderRegistered { .. } => 0,
        EventBody::ChannelOpened { .. } => 1,
    }
}

/// The bytes under which an event is kept: address and provider of a
/// registration, the channel of an opening.
pub open spec fn payload_of(body: EventBody) -> Seq<u8> {
    match body {
        EventBody::ProviderRegistered { address, provider_id } => address@ + provider_id@,
        EventBody::ChannelOpened { channel_id } => channel_id@,
    }
}

/// The address that holds these twenty bytes.
pub open spec fn address_of(bytes: Seq<u8>) -> Address {
    choose|address: Address| address@ == bytes
}

/// The event that is kept under a kind and its bytes, if they are those of
/// an event.
pub open spec fn event_of(kind: u8, payload: Seq<u8>) -> Option<EventBody> {
    if kind == 0 && payload.len() == 52 {
        Some(
            EventBody::ProviderRegistered {
                address: address_of(payload.subrange(0, 20)),
                provider_id: word_of(payload.subrange(20, 52)),
            },
        )
    } else if kind == 1 && payload.len() == 32 {
        Some(EventBody::ChannelOpened { channel_id: word_of(payload) })
    } else {
        None
    }
}

/// An event is read back as it was laid out.
pub proof fn lemma_event_is_read_back(body: EventBody)
    ensures
        event_of(kind_of(body), payload_of(body)) == Some(body),
{
    match body {
        EventBody::ProviderRegistered { address, provider_id } => {
            let payload = payload_of(body);
            assert(payload.subrange(0, 20) =~= address@);
            assert(payload.subrange(20, 52) =~= provider_id@);
            assert(address_of(address@) =~= address);
            assert(word_of(provider_id@) =~= provider_id);
        },
        EventBody::ChannelOpened { channel_id } => {
            assert(word_of(channel_id@) =~= channel_id);
        },
    }
}

/// Puts `N` bytes behind those that `out` holds.
fn append<const N: usize>(out: &mut Vec<u8>, bytes: &[u8; N])
    ensures
        final(out)@ == old(out)@ + bytes@,
{
    let mut i: usize = 0;
    while i < N
        invariant
            i <= N,
            out@ == old(out)@ + bytes@.subrange(0, i as int),
        decreases N - i,
    {
        out.push(bytes[i]);
        assert(out@ =~= old(out)@ + bytes@.subrange(0, i + 1));
        i = i + 1;
    }
    assert(bytes@.subrange(0, N as int) =~= bytes@);
}

/// The twenty bytes of `bytes` from `start` on, as an address.
fn address_at(bytes: &Vec<u8>, start: usize) -> (address: Address)
    requires
        start + 20 <= bytes@.len(),
    ensures
        address == address_of(bytes@.subrange(start as int, start + 20)),
{
    let mut address: Address = [0u8; 20];
    let n = bytes.len();
    let mut i: usize = 0;
    while i < 20
        invariant
            i <= 20,
            n == bytes@.len(),
            start + 20 <= n,
            forall|j: int| 0 <= j < i ==> address@[j] == bytes@[start + j],
        decreases 20 - i,
    {
        address[i] = bytes[start + i];
        i = i + 1;
    }
    assert(address@ =~= bytes@.subrange(start as int, start + 20));
    assert(address =~= address_of(bytes@.subrange(start as int, start + 20)));
    address
}

/// The thirty-two bytes of `bytes` from `start` on, as a word.
fn word_at(bytes: &Vec<u8>, start: usize) -> (word: [u8; 32])
    requires
        start + 32 <= bytes@.len(),
    ensures
        word == word_of(bytes@.subrange(start as int, start + 32)),
{
    let mut word: [u8; 32] = [0u8; 32];
    let n = bytes.len();
    let mut i: usize = 0;
    while i < 32
        invariant
            i <= 32,
            n == bytes@.len(),
            start + 32 <= n,
            forall|j: int| 0 <= j < i ==> word@[j] == bytes@[start + j],
        decreases 32 - i,
    {
        word[i] = bytes[start + i];
        i = i + 1;
    }
    assert(word@ =~= bytes@.subrange(start as int, start + 32));
    assert(word =~= word_of(bytes@.subrange(start as int, start + 32)));
    word
}

/// Lays an event out as its kind and its bytes.
pub fn encode_event(body: &EventBody) -> (row: (u8, Vec<u8>))
    ensures
        row.0 == kind_of(*body),
        row.1@ == payload_of(*body),
{
    let mut payload: Vec<u8> = Vec::new();
    match body {
        EventBody::ProviderRegistered { address, provider_id } => {
            append(&mut payload, address);
            append(&mut payload, provider_id);
            assert(payload@ =~= payload_of(*body));
            (0, payload)
        },
        EventBody::ChannelOpened { channel_id } => {
            append(&mut payload, channel_id);
            assert(payload@ =~= payload_of(*body));
            (1, payload)
        },
    }
}

/// Reads an event back from its kind and its bytes. A kind that there is
/// not, or bytes of the wrong length for the kind, give nothing.
pub fn decode_event(kind: u8, payload: &Vec<u8>) -> (body: Option<EventBody>)
    ensures
        body == event_of(kind, payload@),
{
    if kind == 0 && payload.len() == 52 {
        Some(
            EventBody::ProviderRegistered {
                address: address_at(payload, 0),
                provider_id: word_at(payload, 20),
            },
        )
    } else if kind == 1 && payload.len() == 32 {
        assert(payload@.subrange(0, 32) =~= payload@);
        Some(EventBody::ChannelOpened { channel_id: word_at(payload, 0) })
    } else {
        None
    }
}

/// The code under which a status is kept.
pub open spec fn code_of(status: ChannelStatus) -> u8 {
    match status {
        ChannelStatus::Active => 0,
        ChannelStatus::Closed => 1,
        ChannelStatus::Stuck => 2,
    }
}

/// The status that is kept under a code, if it is the code of one.
pub open spec fn status_of(code: u8) -> Option<ChannelStatus> {
    if code == 0 {
        Some(ChannelStatus::Active)
    } else if code == 1 {
        Some(ChannelStatus::Closed)
    } else if code == 2 {
        Some(ChannelStatus::Stuck)
    } else {
        None
    }
}

/// A status is read back as it was laid out.
pub proof fn lemma_status_is_read_back(status: ChannelStatus)
    ensures
        status_of(code_of(status)) == Some(status),
{
}

/// Computes [`code_of`].
pub fn status_code(status: ChannelStatus) -> (code: u8)
    ensures
        code == code_of(status),
{
    match status {
        ChannelStatus::Active => 0,
        ChannelStatus::Closed => 1,
        ChannelStatus::Stuck => 2,
    }
}

/// Computes [`status_of`].
pub fn status_from_code(code: u8) -> (status: Option<ChannelStatus>)
    ensures
        status == status_of(code),
{
    if code == 0 {
        Some(ChannelStatus::Active)
    } else if code == 1 {
        Some(ChannelStatus::Closed)
    } else if code == 2 {
        Some(ChannelStatus::Stuck)
    } else {
        None
    }
}

/// The three columns of a lease: holder, begin and end, all empty for a
/// channel that is free.
pub open spec fn columns_of(lease: LeaseState) -> (Option<u64>, Option<u64>, Option<u64>) {
    match lease {
        LeaseState::Free => (None, None, None),
        LeaseState::Leased { holder, acquired_at, expires_at } => (
            Some(holder),
            Some(acquired_at),
            Some(expires_at),
        ),
    }
}

/// The lease that three columns hold: free where all are empty, leased
/// where all are filled, and nothing where only some are.
pub open spec fn lease_of(
    holder: Option<u64>,
    acquired_at: Option<u64>,
    expires_at: Option<u64>,
) -> Option<LeaseState> {
    if holder is None && acquired_at is None && expires_at is None {
        Some(LeaseState::Free)
    } else if holder is Some && acquired_at is Some && expires_at is Some {
        Some(
            LeaseState::Leased {
                holder: holder->0,
                acquired_at: acquired_at->0,
                expires_at: expires_at->0,
            },
        )
    } else {
        None
    }
}

/// A lease is read back as it was laid out.
pub proof fn lemma_lease_is_read_back(lease: LeaseState)
    ensures
        lease_of(columns_of(lease).0, columns_of(lease).1, columns_of(lease).2) == Some(lease),
{
}

/// Computes [`columns_of`].
pub fn lease_columns(lease: LeaseState) -> (columns: (Option<u64>, Option<u64>, Option<u64>))
    ensures
        columns == columns_of(lease),
{
    match lease {
        LeaseState::Free => (None, None, None),
        LeaseState::Leased { holder, acquired_at, expires_at } => (
            Some(holder),
            Some(acquired_at),
            Some(expires_at),
        ),
    }
}

/// Computes [`lease_of`].
pub fn lease_from_columns(
    holder: Option<u64>,
    acquired_at: Option<u64>,
    expires_at: Option<u64>,
) -> (lease: Option<LeaseState>)
    ensures
        lease == lease_of(holder, acquired_at, expires_at),
{
    match (holder, acquired_at, expires_at) {
        (None, None, None) => Some(LeaseState::Free),
        (Some(holder), Some(acquired_at), Some(expires_at)) => Some(
            LeaseState::Leased { holder, acquired_at, expires_at },
        ),
        _ => None,
    }
}

} // verus!
