use sentinel::time::after;

#[test]
fn a_moment_after_another_is_their_sum() {
    assert_eq!(after(100, 30), 130);
    assert_eq!(after(0, 0), 0);
    assert_eq!(after(u64::MAX - 30, 30), u64::MAX);
}

#[test]
fn no_moment_lies_after_the_last() {
    assert_eq!(after(u64::MAX - 29, 30), u64::MAX);
    assert_eq!(after(u64::MAX, u64::MAX), u64::MAX);
    assert_eq!(after(1, u64::MAX), u64::MAX);
}
