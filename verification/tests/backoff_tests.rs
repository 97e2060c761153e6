use sentinel::backoff::retry_backoff;

#[test]
fn no_failure_means_no_delay() {
    assert_eq!(retry_backoff(0, 10, 60), 0);
}

#[test]
fn delay_doubles_until_the_cap() {
    assert_eq!(retry_backoff(1, 10, 60), 10);
    assert_eq!(retry_backoff(2, 10, 60), 20);
    assert_eq!(retry_backoff(3, 10, 60), 40);
    assert_eq!(retry_backoff(4, 10, 60), 60);
    assert_eq!(retry_backoff(5, 10, 60), 60);
}

#[test]
fn delay_is_capped_even_where_the_base_is_larger() {
    assert_eq!(retry_backoff(1, 100, 60), 60);
    assert_eq!(retry_backoff(7, 100, 60), 60);
}

#[test]
fn delay_does_not_overflow() {
    assert_eq!(retry_backoff(u32::MAX, u64::MAX, u64::MAX), u64::MAX);
    assert_eq!(retry_backoff(64, 1, u64::MAX), 1u64 << 63);
    assert_eq!(retry_backoff(65, 1, u64::MAX), u64::MAX);
    assert_eq!(retry_backoff(200, 3, 1000), 1000);
}

#[test]
fn zero_base_never_delays() {
    assert_eq!(retry_backoff(3, 0, 60), 0);
}
