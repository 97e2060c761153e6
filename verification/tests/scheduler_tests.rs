use sentinel::config::SchedulerConfig;
use sentinel::event::{Event, EventBody, EventKey, EventKind, RawLog};
use sentinel::ident::ChannelId;
use sentinel::model::{BatchReport, Completion, FailureReason, LoopState, WorkerOutcome};
use sentinel::registry::{Channel, ChannelStatus, LeaseState, Registry};
use sentinel::scheduler::Scheduler;
use sentinel::store::{EventStore, IngestOutcome};

const T: u64 = 1_000;

fn id(byte: u8) -> ChannelId {
    [byte; 32]
}

fn pacing(workers: usize) -> SchedulerConfig {
    SchedulerConfig {
        tick_interval: 5,
        lease_ttl: 30,
        max_concurrent_workers: workers,
        retry_backoff_base: 10,
        retry_backoff_cap: 60,
        initial_due_offset: 0,
        max_attempts: 5,
    }
}

fn opened(tx: u8, channel: u8) -> Event {
    Event {
        key: EventKey { tx_hash: [tx; 32], log_index: 0 },
        body: EventBody::ChannelOpened { channel_id: id(channel) },
    }
}

fn scheduler_with(workers: usize, channels: &[(u8, u64)]) -> Scheduler {
    let mut registry = Registry::new();
    for (byte, due_at) in channels {
        registry.upsert_due(id(*byte), *due_at);
    }
    Scheduler::start(pacing(workers), 1, registry, EventStore::new())
}

fn tick(scheduler: &mut Scheduler, now: u64) -> Vec<ChannelId> {
    assert!(scheduler.begin_tick(now));
    let sent = scheduler.dispatch();
    assert!(scheduler.finish_tick());
    sent
}

const FAILED: WorkerOutcome = WorkerOutcome::Failed(FailureReason::ExternalActionFailed);

#[test]
fn a_scheduler_starts_idle_on_what_the_registry_holds() {
    let scheduler = scheduler_with(2, &[(1, 50), (2, 40)]);
    assert_eq!(scheduler.state(), LoopState::Idle);
    assert_eq!(scheduler.holder(), 1);
    assert_eq!(scheduler.config(), pacing(2));
    assert_eq!(scheduler.in_flight(), Vec::<ChannelId>::new());
    assert_eq!(scheduler.cache().len(), 2);
    assert_eq!(scheduler.cache().due_of(&id(1)), Some(50));
    assert_eq!(scheduler.registry().len(), 2);
    assert_eq!(scheduler.store().len(), 0);
}

#[test]
fn a_tick_walks_through_the_states_of_the_loop() {
    let mut scheduler = scheduler_with(2, &[(1, T)]);
    assert!(!scheduler.finish_tick());
    assert_eq!(scheduler.dispatch(), Vec::<ChannelId>::new());
    assert_eq!(scheduler.state(), LoopState::Idle);
    assert!(scheduler.begin_tick(T));
    assert_eq!(scheduler.state(), LoopState::Ticking);
    assert!(!scheduler.begin_tick(T + 1));
    assert!(!scheduler.finish_tick());
    assert_eq!(scheduler.state(), LoopState::Ticking);
    assert_eq!(scheduler.dispatch(), vec![id(1)]);
    assert_eq!(scheduler.state(), LoopState::Dispatching);
    assert_eq!(scheduler.dispatch(), Vec::<ChannelId>::new());
    assert!(!scheduler.begin_tick(T + 1));
    assert!(scheduler.finish_tick());
    assert_eq!(scheduler.state(), LoopState::Idle);
}

#[test]
fn a_due_channel_is_leased_and_sent_out_once() {
    let mut scheduler = scheduler_with(2, &[(1, T), (2, T + 1)]);
    assert_eq!(tick(&mut scheduler, T - 1), Vec::<ChannelId>::new());
    assert_eq!(tick(&mut scheduler, T), vec![id(1)]);
    assert_eq!(scheduler.in_flight(), vec![id(1)]);
    assert_eq!(scheduler.cache().due_of(&id(1)), None);
    assert_eq!(
        scheduler.registry().get(&id(1)).unwrap().lease,
        LeaseState::Leased { holder: 1, acquired_at: T, expires_at: T + 30 }
    );
    assert_eq!(tick(&mut scheduler, T), Vec::<ChannelId>::new());
    assert_eq!(tick(&mut scheduler, T + 500), vec![id(2)]);
    assert_eq!(scheduler.in_flight(), vec![id(1), id(2)]);
}

#[test]
fn a_success_releases_and_reschedules() {
    let mut scheduler = scheduler_with(2, &[(1, T)]);
    assert_eq!(tick(&mut scheduler, T), vec![id(1)]);
    let done = scheduler.complete(&id(1), WorkerOutcome::Completed { next_due_at: T + 86_400 }, T + 3);
    assert_eq!(done, Completion::Rescheduled { due_at: T + 86_400 });
    let row = scheduler.registry().get(&id(1)).unwrap();
    assert_eq!(row.lease, LeaseState::Free);
    assert_eq!(row.due_at, T + 86_400);
    assert_eq!(scheduler.in_flight(), Vec::<ChannelId>::new());
    assert_eq!(scheduler.cache().due_of(&id(1)), Some(T + 86_400));
    assert_eq!(tick(&mut scheduler, T + 86_399), Vec::<ChannelId>::new());
    assert_eq!(tick(&mut scheduler, T + 86_400), vec![id(1)]);
}

#[test]
fn a_success_never_moves_the_due_time_back() {
    let mut scheduler = scheduler_with(2, &[(1, T)]);
    assert_eq!(tick(&mut scheduler, T + 5), vec![id(1)]);
    let done = scheduler.complete(&id(1), WorkerOutcome::Completed { next_due_at: T - 100 }, T + 6);
    assert_eq!(done, Completion::Rescheduled { due_at: T });
    assert_eq!(scheduler.registry().get(&id(1)).unwrap().due_at, T);
}

#[test]
fn a_report_on_a_channel_that_is_not_in_flight_changes_nothing() {
    let mut scheduler = scheduler_with(2, &[(1, T)]);
    let before = scheduler.registry().channels();
    assert_eq!(scheduler.complete(&id(1), FAILED, T), Completion::NotInFlight);
    assert_eq!(scheduler.complete(&id(9), FAILED, T), Completion::NotInFlight);
    assert_eq!(scheduler.registry().channels(), before);
    assert_eq!(scheduler.cache().due_of(&id(1)), Some(T));
    assert_eq!(tick(&mut scheduler, T), vec![id(1)]);
    let next = WorkerOutcome::Completed { next_due_at: T + 50 };
    assert_eq!(scheduler.complete(&id(1), next, T), Completion::Rescheduled { due_at: T + 50 });
    assert_eq!(scheduler.complete(&id(1), next, T), Completion::NotInFlight);
}

#[test]
fn three_failures_back_off_ever_longer() {
    let mut scheduler = scheduler_with(2, &[(1, T)]);
    assert_eq!(tick(&mut scheduler, T), vec![id(1)]);
    assert_eq!(
        scheduler.complete(&id(1), FAILED, T),
        Completion::Retrying { due_at: T + 10, failures: 1 }
    );
    assert_eq!(scheduler.registry().get(&id(1)).unwrap().due_at, T + 10);
    assert_eq!(scheduler.registry().get(&id(1)).unwrap().lease, LeaseState::Free);
    assert_eq!(tick(&mut scheduler, T), Vec::<ChannelId>::new());
    assert_eq!(tick(&mut scheduler, T + 9), Vec::<ChannelId>::new());
    assert_eq!(tick(&mut scheduler, T + 10), vec![id(1)]);
    assert_eq!(
        scheduler.complete(&id(1), FAILED, T),
        Completion::Retrying { due_at: T + 20, failures: 2 }
    );
    assert_eq!(tick(&mut scheduler, T + 19), Vec::<ChannelId>::new());
    assert_eq!(tick(&mut scheduler, T + 20), vec![id(1)]);
    assert_eq!(
        scheduler.complete(&id(1), WorkerOutcome::Failed(FailureReason::Timeout), T),
        Completion::Retrying { due_at: T + 40, failures: 3 }
    );
    assert_eq!(scheduler.registry().get(&id(1)).unwrap().due_at, T + 40);
    assert_eq!(scheduler.cache().due_of(&id(1)), Some(T + 40));
}

#[test]
fn the_delay_counts_from_the_report_and_is_capped() {
    let mut scheduler = scheduler_with(2, &[(1, T)]);
    let mut now = T;
    let mut dues: Vec<u64> = Vec::new();
    for _ in 0..4 {
        assert_eq!(tick(&mut scheduler, now), vec![id(1)]);
        now += 2;
        match scheduler.complete(&id(1), FAILED, now) {
            Completion::Retrying { due_at, .. } => {
                dues.push(due_at);
                now = due_at;
            }
            other => panic!("unexpected {:?}", other),
        }
    }
    assert_eq!(dues, vec![T + 12, T + 34, T + 76, T + 138]);
}

#[test]
fn a_success_forgets_the_failures() {
    let mut scheduler = scheduler_with(2, &[(1, T)]);
    assert_eq!(tick(&mut scheduler, T), vec![id(1)]);
    assert_eq!(
        scheduler.complete(&id(1), FAILED, T),
        Completion::Retrying { due_at: T + 10, failures: 1 }
    );
    assert_eq!(tick(&mut scheduler, T + 10), vec![id(1)]);
    let next = WorkerOutcome::Completed { next_due_at: T + 100 };
    assert_eq!(scheduler.complete(&id(1), next, T + 11), Completion::Rescheduled { due_at: T + 100 });
    assert_eq!(scheduler.registry().get(&id(1)).unwrap().failures, 0);
    assert_eq!(tick(&mut scheduler, T + 100), vec![id(1)]);
    assert_eq!(
        scheduler.complete(&id(1), FAILED, T + 100),
        Completion::Retrying { due_at: T + 110, failures: 1 }
    );
}

#[test]
fn a_channel_that_keeps_failing_is_marked_stuck() {
    let mut registry = Registry::new();
    registry.upsert_due(id(1), T);
    let config = SchedulerConfig { max_attempts: 2, ..pacing(2) };
    let mut scheduler = Scheduler::start(config, 1, registry, EventStore::new());
    assert_eq!(tick(&mut scheduler, T), vec![id(1)]);
    assert_eq!(
        scheduler.complete(&id(1), FAILED, T),
        Completion::Retrying { due_at: T + 10, failures: 1 }
    );
    assert_eq!(tick(&mut scheduler, T + 10), vec![id(1)]);
    assert_eq!(scheduler.complete(&id(1), FAILED, T + 10), Completion::Stuck { failures: 2 });
    let row = scheduler.registry().get(&id(1)).unwrap();
    assert_eq!(row.status, ChannelStatus::Stuck);
    assert_eq!(row.lease, LeaseState::Free);
    assert_eq!(row.failures, 2);
    assert_eq!(row.due_at, T + 10);
    assert_eq!(scheduler.cache().len(), 0);
    assert_eq!(scheduler.in_flight(), Vec::<ChannelId>::new());
    assert_eq!(tick(&mut scheduler, u64::MAX - 30), Vec::<ChannelId>::new());
    assert!(!scheduler.promote(&id(1), 0));
}

#[test]
fn no_more_executions_are_in_flight_than_allowed() {
    let mut scheduler = scheduler_with(2, &[(4, T + 3), (1, T + 2), (3, T + 1), (2, T + 2)]);
    assert_eq!(tick(&mut scheduler, T + 5), vec![id(3), id(1)]);
    assert_eq!(scheduler.in_flight(), vec![id(3), id(1)]);
    assert_eq!(scheduler.cache().len(), 2);
    assert_eq!(scheduler.cache().due_of(&id(2)), Some(T + 2));
    assert_eq!(scheduler.cache().due_of(&id(4)), Some(T + 3));
    assert_eq!(scheduler.registry().get(&id(2)).unwrap().lease, LeaseState::Free);
    assert_eq!(tick(&mut scheduler, T + 6), Vec::<ChannelId>::new());
    assert_eq!(scheduler.cache().len(), 2);
    let next = WorkerOutcome::Completed { next_due_at: T + 500 };
    assert_eq!(scheduler.complete(&id(3), next, T + 7), Completion::Rescheduled { due_at: T + 500 });
    assert_eq!(tick(&mut scheduler, T + 8), vec![id(2)]);
    assert_eq!(scheduler.in_flight(), vec![id(1), id(2)]);
    assert_eq!(scheduler.complete(&id(1), next, T + 9), Completion::Rescheduled { due_at: T + 500 });
    assert_eq!(scheduler.complete(&id(2), next, T + 9), Completion::Rescheduled { due_at: T + 500 });
    assert_eq!(tick(&mut scheduler, T + 10), vec![id(4)]);
}

#[test]
fn without_workers_nothing_is_sent_out_and_nothing_is_lost() {
    let mut scheduler = scheduler_with(0, &[(1, T), (2, T)]);
    assert_eq!(tick(&mut scheduler, T), Vec::<ChannelId>::new());
    assert_eq!(scheduler.cache().len(), 2);
    assert_eq!(scheduler.in_flight(), Vec::<ChannelId>::new());
}

#[test]
fn an_expired_lease_is_recovered_after_a_crash() {
    let mut crashed = scheduler_with(2, &[(1, T), (2, T + 200)]);
    assert_eq!(tick(&mut crashed, T), vec![id(1)]);
    let rows = crashed.registry().channels();
    let events = crashed.store().recorded();
    let providers = crashed.store().registered();
    drop(crashed);

    let registry = Registry::from_rows(rows).unwrap();
    let store = EventStore::from_rows(events, providers).unwrap();
    let mut restarted = Scheduler::start(pacing(2), 2, registry, store);
    assert_eq!(restarted.in_flight(), Vec::<ChannelId>::new());
    assert_eq!(restarted.cache().len(), 2);
    assert_eq!(restarted.cache().due_of(&id(1)), Some(T));
    assert_eq!(tick(&mut restarted, T + 29), Vec::<ChannelId>::new());
    assert_eq!(restarted.cache().len(), 2);
    assert_eq!(restarted.cache().due_of(&id(1)), Some(T));
    assert_eq!(tick(&mut restarted, T + 30), vec![id(1)]);
    assert_eq!(
        restarted.registry().get(&id(1)).unwrap().lease,
        LeaseState::Leased { holder: 2, acquired_at: T + 30, expires_at: T + 60 }
    );
    assert_eq!(restarted.in_flight(), vec![id(1)]);
    assert_eq!(tick(&mut restarted, T + 31), Vec::<ChannelId>::new());
}

#[test]
fn a_channel_under_a_live_lease_is_never_a_candidate() {
    let mut registry = Registry::new();
    registry.upsert_due(id(1), T);
    registry.upsert_due(id(2), T);
    assert!(registry.try_acquire_lease(&id(1), 77, T, 100).is_ok());
    let mut scheduler = Scheduler::start(pacing(5), 78, registry, EventStore::new());
    assert_eq!(tick(&mut scheduler, T + 50), vec![id(2)]);
    assert_eq!(tick(&mut scheduler, T + 99), Vec::<ChannelId>::new());
    assert_eq!(tick(&mut scheduler, T + 100), vec![id(1)]);
}

fn leased_row(byte: u8, due_at: u64, expires_at: u64) -> Channel {
    let lease = LeaseState::Leased { holder: 77, acquired_at: 0, expires_at };
    Channel { lease, ..Channel::open(id(byte), due_at, None) }
}

#[test]
fn a_channel_whose_lease_has_run_out_takes_its_place_by_its_due_time() {
    let rows = vec![leased_row(1, 10, 50), Channel::open(id(2), 20, None)];
    let registry = Registry::from_rows(rows).unwrap();
    let mut scheduler = Scheduler::start(pacing(1), 78, registry, EventStore::new());
    assert!(scheduler.begin_tick(60));
    assert_eq!(scheduler.candidates(), vec![id(1), id(2)]);
    assert_eq!(scheduler.dispatch(), vec![id(1)]);
    assert_eq!(scheduler.cache().due_of(&id(2)), Some(20));
    assert!(scheduler.finish_tick());
}

#[test]
fn a_channel_that_was_held_back_comes_before_those_due_later() {
    let rows = vec![
        Channel::open(id(3), 30, None),
        leased_row(1, 10, 50),
        Channel::open(id(2), 20, None),
        leased_row(4, 5, 100),
    ];
    let registry = Registry::from_rows(rows).unwrap();
    let mut scheduler = Scheduler::start(pacing(0), 78, registry, EventStore::new());
    assert!(scheduler.begin_tick(49));
    assert_eq!(scheduler.candidates(), vec![id(2), id(3)]);
    assert_eq!(scheduler.cache().len(), 2);
    assert_eq!(scheduler.cache().due_of(&id(1)), Some(10));
    assert_eq!(scheduler.cache().due_of(&id(4)), Some(5));
    assert_eq!(scheduler.dispatch(), Vec::<ChannelId>::new());
    assert!(scheduler.finish_tick());
    assert_eq!(scheduler.cache().len(), 4);
    assert!(scheduler.begin_tick(50));
    assert_eq!(scheduler.candidates(), vec![id(1), id(2), id(3)]);
    assert_eq!(scheduler.dispatch(), Vec::<ChannelId>::new());
    assert!(scheduler.finish_tick());
    assert!(scheduler.begin_tick(100));
    assert_eq!(scheduler.candidates(), vec![id(4), id(1), id(2), id(3)]);
}

#[test]
fn a_promotion_moves_a_channel_whose_lease_has_run_out() {
    let rows = vec![leased_row(1, 40, 50), Channel::open(id(2), 20, None)];
    let registry = Registry::from_rows(rows).unwrap();
    let mut scheduler = Scheduler::start(pacing(1), 78, registry, EventStore::new());
    assert!(scheduler.promote(&id(1), 10));
    assert_eq!(scheduler.cache().due_of(&id(1)), Some(10));
    assert!(scheduler.begin_tick(60));
    assert_eq!(scheduler.candidates(), vec![id(1), id(2)]);
}

#[test]
fn at_the_end_of_time_nothing_is_sent_out_and_nothing_is_lost() {
    let mut scheduler = scheduler_with(2, &[(1, T), (2, T + 1)]);
    assert!(scheduler.begin_tick(u64::MAX - 29));
    assert_eq!(scheduler.candidates(), vec![id(1), id(2)]);
    assert_eq!(scheduler.dispatch(), Vec::<ChannelId>::new());
    assert!(scheduler.finish_tick());
    assert_eq!(scheduler.in_flight(), Vec::<ChannelId>::new());
    assert_eq!(scheduler.cache().len(), 2);
    assert_eq!(scheduler.registry().get(&id(1)).unwrap().lease, LeaseState::Free);
    assert_eq!(tick(&mut scheduler, u64::MAX - 30), vec![id(1), id(2)]);
    assert_eq!(
        scheduler.complete(&id(1), FAILED, u64::MAX - 5),
        Completion::Retrying { due_at: u64::MAX, failures: 1 }
    );
    assert_eq!(
        scheduler.complete(&id(2), FAILED, u64::MAX - 10),
        Completion::Retrying { due_at: u64::MAX, failures: 1 }
    );
    assert_eq!(scheduler.ingest(opened(9, 9), u64::MAX), IngestOutcome::Inserted);
    assert_eq!(scheduler.registry().get(&id(9)).unwrap().due_at, u64::MAX);
}

#[test]
fn an_opened_channel_is_scheduled() {
    let mut scheduler = scheduler_with(2, &[]);
    assert_eq!(scheduler.ingest(opened(1, 7), T), IngestOutcome::Inserted);
    assert_eq!(scheduler.ingest(opened(1, 7), T + 5), IngestOutcome::AlreadyPresent);
    assert_eq!(scheduler.store().len(), 1);
    assert_eq!(scheduler.registry().len(), 1);
    assert_eq!(scheduler.cache().len(), 1);
    assert_eq!(scheduler.cache().due_of(&id(7)), Some(T));
    assert_eq!(tick(&mut scheduler, T), vec![id(7)]);
}

#[test]
fn a_channel_opens_with_the_offset_of_the_settings() {
    let config = SchedulerConfig { initial_due_offset: 600, ..pacing(2) };
    let mut scheduler = Scheduler::start(config, 1, Registry::new(), EventStore::new());
    assert_eq!(scheduler.ingest(opened(1, 7), T), IngestOutcome::Inserted);
    assert_eq!(scheduler.registry().get(&id(7)).unwrap().due_at, T + 600);
    assert_eq!(tick(&mut scheduler, T + 599), Vec::<ChannelId>::new());
    assert_eq!(tick(&mut scheduler, T + 600), vec![id(7)]);
}

#[test]
fn a_second_opening_of_a_channel_in_flight_does_not_schedule_it_twice() {
    let mut scheduler = scheduler_with(2, &[]);
    assert_eq!(scheduler.ingest(opened(1, 7), T), IngestOutcome::Inserted);
    assert_eq!(tick(&mut scheduler, T), vec![id(7)]);
    assert_eq!(scheduler.ingest(opened(2, 7), T + 1), IngestOutcome::Inserted);
    assert_eq!(scheduler.cache().len(), 0);
    assert_eq!(scheduler.in_flight(), vec![id(7)]);
    assert_eq!(scheduler.registry().get(&id(7)).unwrap().due_at, T);
    assert_eq!(tick(&mut scheduler, T + 2), Vec::<ChannelId>::new());
}

fn raw(tx: u8, topics: Vec<[u8; 32]>) -> RawLog {
    RawLog {
        address: [0xaa; 20],
        topics: topics.iter().map(|topic| topic.to_vec()).collect(),
        data: Vec::new(),
        transaction_hash: Some([tx; 32]),
        log_index: Some(0),
    }
}

#[test]
fn a_malformed_log_is_skipped_and_the_next_is_stored() {
    let mut scheduler = scheduler_with(2, &[]);
    let logs = vec![
        raw(1, vec![[0; 32], id(5)]),
        raw(2, vec![[0; 32]]),
        raw(3, vec![[0; 32], id(6)]),
        raw(1, vec![[0; 32], id(9)]),
    ];
    let report = scheduler.ingest_logs(EventKind::ChannelOpened, &logs, T);
    assert_eq!(report, BatchReport { inserted: 2, duplicates: 1, malformed: 1 });
    assert_eq!(scheduler.store().recorded(), vec![opened(1, 5), opened(3, 6)]);
    assert!(scheduler.registry().get(&id(6)).is_some());
    assert!(scheduler.registry().get(&id(9)).is_none());
    assert_eq!(scheduler.cache().len(), 2);
    let again = scheduler.ingest_logs(EventKind::ChannelOpened, &logs, T + 1);
    assert_eq!(again, BatchReport { inserted: 0, duplicates: 3, malformed: 1 });
    assert_eq!(scheduler.store().len(), 2);
    assert_eq!(scheduler.cache().due_of(&id(6)), Some(T));
}

#[test]
fn providers_are_registered_from_logs() {
    let mut scheduler = scheduler_with(2, &[]);
    let logs = vec![raw(1, vec![[0; 32], [4; 32]]), raw(2, Vec::new())];
    let report = scheduler.ingest_logs(EventKind::ProviderRegistered, &logs, T);
    assert_eq!(report, BatchReport { inserted: 1, duplicates: 0, malformed: 1 });
    assert_eq!(scheduler.store().provider(&[0xaa; 20]), Some([4; 32]));
    assert_eq!(scheduler.registry().len(), 0);
    assert_eq!(scheduler.cache().len(), 0);
    let none = scheduler.ingest_logs(EventKind::ProviderRegistered, &Vec::new(), T);
    assert_eq!(none, BatchReport { inserted: 0, duplicates: 0, malformed: 0 });
}

#[test]
fn a_promoted_channel_is_executed_before_its_turn() {
    let mut scheduler = scheduler_with(1, &[(1, T + 100), (2, T + 50)]);
    assert!(!scheduler.promote(&id(1), T + 100));
    assert!(!scheduler.promote(&id(1), T + 200));
    assert!(!scheduler.promote(&id(9), T));
    assert!(scheduler.promote(&id(1), T));
    assert_eq!(scheduler.registry().get(&id(1)).unwrap().due_at, T);
    assert_eq!(scheduler.cache().due_of(&id(1)), Some(T));
    assert_eq!(scheduler.cache().len(), 2);
    assert_eq!(tick(&mut scheduler, T + 60), vec![id(1)]);
    assert_eq!(scheduler.cache().due_of(&id(2)), Some(T + 50));
}

#[test]
fn a_promotion_of_a_channel_in_flight_waits_for_the_report() {
    let mut scheduler = scheduler_with(1, &[(1, T)]);
    assert_eq!(tick(&mut scheduler, T), vec![id(1)]);
    assert!(scheduler.promote(&id(1), T - 10));
    assert_eq!(scheduler.cache().len(), 0);
    let next = WorkerOutcome::Completed { next_due_at: T + 50 };
    assert_eq!(scheduler.complete(&id(1), next, T + 1), Completion::Rescheduled { due_at: T + 50 });
}

#[test]
fn the_candidates_of_a_tick_wait_in_order_for_the_dispatch() {
    let mut scheduler = scheduler_with(1, &[(2, T + 1), (1, T + 1), (3, T)]);
    assert_eq!(scheduler.candidates(), Vec::<ChannelId>::new());
    assert!(scheduler.begin_tick(T + 1));
    assert_eq!(scheduler.candidates(), vec![id(3), id(1), id(2)]);
    assert_eq!(scheduler.cache().len(), 0);
    assert_eq!(scheduler.dispatch(), vec![id(3)]);
    assert_eq!(scheduler.candidates(), Vec::<ChannelId>::new());
    assert_eq!(scheduler.cache().len(), 2);
}

#[test]
fn an_execution_that_is_called_off_leaves_the_channel_due() {
    let mut scheduler = scheduler_with(2, &[(1, T)]);
    assert_eq!(scheduler.abandon(&id(1)), Completion::NotInFlight);
    assert_eq!(tick(&mut scheduler, T + 4), vec![id(1)]);
    assert_eq!(scheduler.abandon(&id(1)), Completion::Withdrawn { due_at: T });
    let row = scheduler.registry().get(&id(1)).unwrap();
    assert_eq!(row.lease, LeaseState::Free);
    assert_eq!(row.failures, 0);
    assert_eq!(row.due_at, T);
    assert_eq!(scheduler.in_flight(), Vec::<ChannelId>::new());
    assert_eq!(scheduler.cache().due_of(&id(1)), Some(T));
    assert_eq!(scheduler.abandon(&id(1)), Completion::NotInFlight);
    assert_eq!(tick(&mut scheduler, T + 5), vec![id(1)]);
}

#[test]
fn a_batch_that_is_handed_in_twice_changes_nothing() {
    let mut scheduler = scheduler_with(2, &[]);
    let logs = vec![
        raw(1, vec![[0; 32], id(5)]),
        raw(2, vec![[0; 32]]),
        raw(3, vec![[0; 32], id(6)]),
        raw(3, vec![[0; 32], id(7)]),
    ];
    let first = scheduler.ingest_logs(EventKind::ChannelOpened, &logs, T);
    assert_eq!(first, BatchReport { inserted: 2, duplicates: 1, malformed: 1 });
    let events = scheduler.store().recorded();
    let rows = scheduler.registry().channels();
    let second = scheduler.ingest_logs(EventKind::ChannelOpened, &logs, T + 500);
    assert_eq!(second, BatchReport { inserted: 0, duplicates: 3, malformed: 1 });
    assert_eq!(scheduler.store().recorded(), events);
    assert_eq!(scheduler.registry().channels(), rows);
    assert_eq!(scheduler.cache().len(), 2);
    assert_eq!(scheduler.cache().due_of(&id(5)), Some(T));
}
