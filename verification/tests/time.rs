use approval_voting::time::Wakeups;

#[test]
fn wakeups_register_in_order_of_tick() {
    let mut wakeups = Wakeups::new();
    assert_eq!(wakeups.len(), 0);
    assert_eq!(wakeups.register(10), 0);
    assert_eq!(wakeups.register(30), 1);
    assert_eq!(wakeups.register(20), 1);
    assert_eq!(wakeups.register(5), 0);
    assert_eq!(wakeups.register(40), 4);
    // Before those of the same tick.
    assert_eq!(wakeups.register(20), 2);
    assert_eq!(wakeups.len(), 6);
}

#[test]
fn wakeups_due_leave_from_the_front() {
    let mut wakeups = Wakeups::new();
    for tick in [10, 20, 20, 30, u64::MAX] {
        wakeups.register(tick);
    }
    assert_eq!(wakeups.take_due(9), 0);
    assert_eq!(wakeups.len(), 5);
    assert_eq!(wakeups.take_due(20), 3);
    assert_eq!(wakeups.len(), 2);
    assert_eq!(wakeups.take_due(20), 0);
    assert_eq!(wakeups.register(25), 0);
    assert_eq!(wakeups.take_due(u64::MAX - 1), 2);
    assert_eq!(wakeups.take_due(u64::MAX), 1);
    assert_eq!(wakeups.len(), 0);
    assert_eq!(wakeups.take_due(u64::MAX), 0);
}
