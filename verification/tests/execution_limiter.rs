use data_structures::execution_limiter::ExecutionLimiter;

#[test]
fn limiter_starts_idle() {
    let l = ExecutionLimiter::new(2);
    assert_eq!(l.running_count(), 0);
}

#[test]
fn limiter_admits_up_to_capacity() {
    let mut l = ExecutionLimiter::new(2);
    assert!(l.try_enter());
    assert!(l.try_enter());
    assert_eq!(l.running_count(), 2);
    assert!(!l.try_enter());
    assert_eq!(l.running_count(), 2);
}

#[test]
fn limiter_enter_then_leave_restores() {
    let mut l = ExecutionLimiter::new(3);
    assert!(l.try_enter());
    assert_eq!(l.running_count(), 1);
    l.leave();
    assert_eq!(l.running_count(), 0);
}

#[test]
fn limiter_admits_again_after_leave() {
    let mut l = ExecutionLimiter::new(1);
    assert!(l.try_enter());
    assert!(!l.try_enter());
    l.leave();
    assert!(l.try_enter());
}

#[test]
fn limiter_of_zero_admits_nothing() {
    let mut l = ExecutionLimiter::new(0);
    assert!(!l.try_enter());
    assert_eq!(l.running_count(), 0);
}
