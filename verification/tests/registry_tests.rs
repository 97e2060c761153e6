use sentinel::digest::calculate_keccak_address;
use sentinel::ident::ChannelId;
use sentinel::lease::LeaseManager;
use sentinel::registry::{
    Channel, ChannelStatus, LeaseOutcome, LeaseState, Registry, RegistryError, ReleaseOutcome,
};

fn id(byte: u8) -> ChannelId {
    [byte; 32]
}

fn registry_with(byte: u8, due_at: u64) -> Registry {
    let mut registry = Registry::new();
    registry.upsert_due(id(byte), due_at);
    registry
}

#[test]
fn upsert_due_creates_an_open_channel() {
    let registry = registry_with(1, 100);
    assert_eq!(registry.len(), 1);
    let row = registry.get(&id(1)).unwrap();
    assert_eq!(row.id, id(1));
    assert_eq!(row.owner, calculate_keccak_address(&id(1)));
    assert_eq!(row.due_at, 100);
    assert_eq!(row.lease, LeaseState::Free);
    assert_eq!(row.status, ChannelStatus::Active);
    assert_eq!(row.failures, 0);
    assert_eq!(row.cursor, None);
    assert_eq!(registry.get(&id(2)), None);
}

#[test]
fn upsert_due_overrides_the_due_time_and_nothing_else() {
    let mut registry = registry_with(1, 100);
    assert_eq!(registry.try_acquire_lease(&id(1), 7, 100, 30), Ok(LeaseOutcome::LeaseGranted));
    let before = registry.get(&id(1)).unwrap();
    registry.upsert_due(id(1), 40);
    let after = registry.get(&id(1)).unwrap();
    assert_eq!(after, Channel { due_at: 40, ..before });
    assert_eq!(registry.len(), 1);
}

#[test]
fn lease_is_granted_on_a_free_channel() {
    let mut registry = registry_with(1, 100);
    assert_eq!(registry.try_acquire_lease(&id(1), 7, 100, 30), Ok(LeaseOutcome::LeaseGranted));
    assert_eq!(
        registry.get(&id(1)).unwrap().lease,
        LeaseState::Leased { holder: 7, acquired_at: 100, expires_at: 130 }
    );
}

#[test]
fn two_acquire_attempts_at_one_tick_give_one_grant() {
    let mut registry = registry_with(1, 100);
    let first = registry.try_acquire_lease(&id(1), 7, 100, 30);
    let second = registry.try_acquire_lease(&id(1), 8, 100, 30);
    assert_eq!(first, Ok(LeaseOutcome::LeaseGranted));
    assert_eq!(second, Ok(LeaseOutcome::AlreadyLeased));
    assert_eq!(
        registry.get(&id(1)).unwrap().lease,
        LeaseState::Leased { holder: 7, acquired_at: 100, expires_at: 130 }
    );
}

#[test]
fn the_holder_itself_is_refused_while_its_lease_is_live() {
    let mut registry = registry_with(1, 100);
    assert_eq!(registry.try_acquire_lease(&id(1), 7, 100, 30), Ok(LeaseOutcome::LeaseGranted));
    assert_eq!(registry.try_acquire_lease(&id(1), 7, 110, 30), Ok(LeaseOutcome::AlreadyLeased));
}

#[test]
fn granted_leases_never_overlap() {
    let mut registry = registry_with(1, 0);
    let mut windows: Vec<(u64, u64)> = Vec::new();
    let mut now = 0u64;
    while now < 200 {
        let holder = now % 3;
        if registry.try_acquire_lease(&id(1), holder, now, 25) == Ok(LeaseOutcome::LeaseGranted) {
            windows.push((now, now + 25));
        }
        now += 7;
    }
    assert!(windows.len() >= 2);
    for pair in windows.windows(2) {
        assert!(pair[0].1 <= pair[1].0);
    }
}

#[test]
fn a_lease_is_live_until_just_before_it_expires() {
    let mut registry = registry_with(1, 100);
    assert_eq!(registry.try_acquire_lease(&id(1), 7, 100, 30), Ok(LeaseOutcome::LeaseGranted));
    assert!(registry.get(&id(1)).unwrap().is_leased_at(129));
    assert!(!registry.get(&id(1)).unwrap().is_leased_at(130));
    assert_eq!(registry.try_acquire_lease(&id(1), 8, 129, 30), Ok(LeaseOutcome::AlreadyLeased));
    assert_eq!(registry.try_acquire_lease(&id(1), 8, 130, 30), Ok(LeaseOutcome::LeaseGranted));
}

#[test]
fn an_expired_lease_is_overwritten_and_its_release_is_a_no_op() {
    let mut registry = registry_with(1, 100);
    assert_eq!(registry.try_acquire_lease(&id(1), 7, 100, 30), Ok(LeaseOutcome::LeaseGranted));
    assert_eq!(registry.try_acquire_lease(&id(1), 8, 500, 30), Ok(LeaseOutcome::LeaseGranted));
    assert_eq!(registry.release_lease(&id(1), 7), Ok(ReleaseOutcome::NotHolder));
    assert_eq!(
        registry.get(&id(1)).unwrap().lease,
        LeaseState::Leased { holder: 8, acquired_at: 500, expires_at: 530 }
    );
    assert_eq!(registry.release_lease(&id(1), 8), Ok(ReleaseOutcome::Released));
    assert_eq!(registry.get(&id(1)).unwrap().lease, LeaseState::Free);
}

#[test]
fn release_of_a_free_channel_is_not_the_holders() {
    let mut registry = registry_with(1, 100);
    assert_eq!(registry.release_lease(&id(1), 7), Ok(ReleaseOutcome::NotHolder));
}

#[test]
fn release_frees_the_channel_for_the_next_holder() {
    let mut registry = registry_with(1, 100);
    assert_eq!(registry.try_acquire_lease(&id(1), 7, 100, 30), Ok(LeaseOutcome::LeaseGranted));
    assert_eq!(registry.release_lease(&id(1), 7), Ok(ReleaseOutcome::Released));
    assert_eq!(registry.try_acquire_lease(&id(1), 8, 101, 30), Ok(LeaseOutcome::LeaseGranted));
}

#[test]
fn unknown_channels_are_reported() {
    let mut registry = registry_with(1, 100);
    assert_eq!(
        registry.try_acquire_lease(&id(2), 7, 100, 30),
        Err(RegistryError::UnknownChannel)
    );
    assert_eq!(registry.release_lease(&id(2), 7), Err(RegistryError::UnknownChannel));
    assert_eq!(registry.reschedule(&id(2), 7), Err(RegistryError::UnknownChannel));
    assert_eq!(registry.len(), 1);
}

#[test]
fn reschedule_only_moves_forward() {
    let mut registry = registry_with(1, 100);
    assert_eq!(registry.reschedule(&id(1), 150), Ok(()));
    assert_eq!(registry.get(&id(1)).unwrap().due_at, 150);
    assert_eq!(registry.reschedule(&id(1), 120), Ok(()));
    assert_eq!(registry.get(&id(1)).unwrap().due_at, 150);
}

#[test]
fn from_rows_refuses_two_rows_for_one_channel() {
    let a = Channel::open(id(1), 10, None);
    let b = Channel::open(id(2), 20, None);
    assert!(Registry::from_rows(vec![a, b, Channel { due_at: 30, ..a }]).is_none());
    let registry = Registry::from_rows(vec![a, b]).unwrap();
    assert_eq!(registry.len(), 2);
    assert_eq!(registry.get(&id(2)), Some(b));
    assert_eq!(registry.channels(), vec![a, b]);
    assert_eq!(Registry::from_rows(Vec::new()).unwrap().len(), 0);
}

#[test]
fn put_replaces_the_row() {
    let mut registry = registry_with(1, 100);
    let mut row = registry.get(&id(1)).unwrap();
    row.status = ChannelStatus::Closed;
    row.failures = 3;
    registry.put(row);
    assert_eq!(registry.len(), 1);
    assert_eq!(registry.get(&id(1)), Some(row));
    assert!(!row.is_active());
}

#[test]
fn a_row_takes_and_returns_its_lease() {
    let mut row = Channel::open(id(1), 100, None);
    assert!(!row.is_leased_at(90));
    assert_eq!(row.try_acquire_lease(1, 90, 30), Ok(LeaseOutcome::LeaseGranted));
    assert!(row.is_leased_at(119));
    assert_eq!(row.try_acquire_lease(2, 119, 30), Ok(LeaseOutcome::AlreadyLeased));
    row.reschedule(300);
    assert_eq!(row.due_at, 300);
    row.reschedule(200);
    assert_eq!(row.due_at, 300);
    assert_eq!(row.release_lease(2), ReleaseOutcome::NotHolder);
    assert_eq!(row.release_lease(1), ReleaseOutcome::Released);
    assert_eq!(row.lease, LeaseState::Free);
}

#[test]
fn a_lease_that_would_end_after_the_last_moment_is_an_error() {
    let mut registry = registry_with(1, 100);
    let before = registry.get(&id(1)).unwrap();
    assert_eq!(
        registry.try_acquire_lease(&id(1), 7, u64::MAX - 29, 30),
        Err(RegistryError::TimeOutOfRange)
    );
    assert_eq!(registry.get(&id(1)), Some(before));
    assert_eq!(
        registry.try_acquire_lease(&id(1), 7, u64::MAX - 30, 30),
        Ok(LeaseOutcome::LeaseGranted)
    );
    assert_eq!(
        registry.get(&id(1)).unwrap().lease,
        LeaseState::Leased { holder: 7, acquired_at: u64::MAX - 30, expires_at: u64::MAX }
    );
    assert_eq!(
        registry.try_acquire_lease(&id(1), 8, u64::MAX - 1, u64::MAX),
        Ok(LeaseOutcome::AlreadyLeased)
    );
    assert_eq!(
        registry.try_acquire_lease(&id(1), 8, u64::MAX, 1),
        Err(RegistryError::TimeOutOfRange)
    );
    assert_eq!(registry.try_acquire_lease(&id(1), 8, u64::MAX, 0), Ok(LeaseOutcome::LeaseGranted));
}

#[test]
fn a_later_run_has_a_larger_holder() {
    let first = LeaseManager::new(41);
    let second = first.successor().unwrap();
    assert_eq!(first.holder(), 41);
    assert_eq!(second.holder(), 42);
    assert!(LeaseManager::new(u64::MAX).successor().is_none());
}

#[test]
fn a_restarted_run_does_not_take_a_stale_lease_for_its_own() {
    let mut registry = registry_with(1, 100);
    let crashed = LeaseManager::new(1);
    let restarted = crashed.successor().unwrap();
    assert_eq!(crashed.acquire(&mut registry, &id(1), 100, 30), Ok(LeaseOutcome::LeaseGranted));
    assert_eq!(restarted.release(&mut registry, &id(1)), Ok(ReleaseOutcome::NotHolder));
    assert_eq!(
        restarted.acquire(&mut registry, &id(1), 110, 30),
        Ok(LeaseOutcome::AlreadyLeased)
    );
    assert_eq!(
        restarted.acquire(&mut registry, &id(1), 130, 30),
        Ok(LeaseOutcome::LeaseGranted)
    );
    assert_eq!(crashed.release(&mut registry, &id(1)), Ok(ReleaseOutcome::NotHolder));
    assert_eq!(restarted.release(&mut registry, &id(1)), Ok(ReleaseOutcome::Released));
    assert_eq!(
        restarted.acquire(&mut registry, &id(9), 130, 30),
        Err(RegistryError::UnknownChannel)
    );
}
