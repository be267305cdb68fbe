use timer::HashedWheelTimer::{
    instance_warning,
    HashedWheelBucket, HashedWheelTimeout, HashedWheelTimer, TickWait, TimeoutState, TimerError,
    Worker, WorkerState,
};

#[test]
fn normalize_rounds_up_to_a_power_of_two() {
    assert_eq!(HashedWheelTimer::<u32>::normalizeTicksPerWheel(0), 1);
    assert_eq!(HashedWheelTimer::<u32>::normalizeTicksPerWheel(1), 1);
    assert_eq!(HashedWheelTimer::<u32>::normalizeTicksPerWheel(3), 4);
    assert_eq!(HashedWheelTimer::<u32>::normalizeTicksPerWheel(512), 512);
    assert_eq!(HashedWheelTimer::<u32>::normalizeTicksPerWheel(513), 1024);
    assert_eq!(HashedWheelTimer::<u32>::normalizeTicksPerWheel(1u128 << 127), 1u128 << 127);
}

#[test]
fn create_wheel_makes_empty_slots() {
    let wheel = HashedWheelTimer::<u32>::createWheel(5);
    assert_eq!(wheel.len(), 8);
}

#[test]
fn default_timer_settings() {
    let timer = HashedWheelTimer::<u32>::new_default();
    let w = timer.worker();
    assert_eq!(w.tick_duration(), 100);
    assert_eq!(w.wheel_len(), 512);
    assert_eq!(w.max_pending_timeouts(), 0);
    assert_eq!(w.pending_timeouts(), 1);
    assert_eq!(w.state(), WorkerState::INIT);
    assert_eq!(w.start_time(), 0);
    assert_eq!(w.tick(), 0);
    assert_eq!(w.queue_len(), 0);
    for i in 0..512 {
        assert_eq!(w.bucket_len(i), 0);
    }
}

#[test]
fn worker_new_masks_to_a_power_of_two_wheel() {
    let w = Worker::<u32>::new(10, 6, 3);
    assert_eq!(w.wheel_len(), 8);
    assert_eq!(w.tick_duration(), 10);
    assert_eq!(w.max_pending_timeouts(), 3);
    Worker::<u32>::init();
}

#[test]
fn new_timeout_starts_the_timer_once() {
    let mut timer = HashedWheelTimer::new(100, 16, 0);
    assert_eq!(timer.newTimeout(1u32, 1000), Ok(true));
    assert_eq!(timer.worker().state(), WorkerState::STARTED);
    assert!(timer.worker().start_time() != 0);
    assert_eq!(timer.newTimeout(2u32, 2000), Ok(false));
    assert_eq!(timer.worker().queue_len(), 2);
    assert_eq!(timer.worker().pending_timeouts(), 3);
    assert_eq!(timer.start(), Ok(false));
}

#[test]
fn pending_limit_allows_exactly_max_timeouts() {
    let mut timer = HashedWheelTimer::new(100, 16, 2);
    assert!(!timer.worker().over_pending_limit());
    assert_eq!(timer.newTimeout(1u32, 1000), Ok(true));
    assert!(!timer.worker().over_pending_limit());
    assert_eq!(timer.newTimeout(2u32, 1000), Ok(false));
    assert!(timer.worker().over_pending_limit());
    assert_eq!(timer.worker().pending_timeouts(), 3);
    assert_eq!(timer.worker().queue_len(), 2);
}

#[test]
fn start_at_uses_one_for_time_zero() {
    let mut w = Worker::<u32>::new(100, 4, 0);
    assert!(w.start_at(0));
    assert_eq!(w.start_time(), 1);
    assert!(!w.start_at(50));
    assert_eq!(w.start_time(), 1);
}

#[test]
fn reserve_pending_counts_up_to_the_limit() {
    let mut w = Worker::<u32>::new(100, 4, 0);
    w.reserve_pending();
    assert_eq!(w.pending_timeouts(), 2);
    assert!(!w.over_pending_limit());
    let mut limited = Worker::<u32>::new(100, 4, 2);
    limited.reserve_pending();
    assert!(!limited.over_pending_limit());
    limited.reserve_pending();
    assert!(limited.over_pending_limit());
    assert_eq!(limited.pending_timeouts(), 3);
}

#[test]
fn add_timeout_at_measures_from_the_start() {
    let mut w = Worker::<u32>::new(100, 4, 0);
    assert!(w.start_at(1000));
    assert_eq!(w.add_timeout_at(7, 250, 1000), Ok(()));
    assert_eq!(w.queue_len(), 1);
    assert_eq!(w.add_timeout_at(8, 5, 900), Err(TimerError::DeadlineBeforeStart));
    assert_eq!(w.queue_len(), 1);
    // past the end of the clock: the deadline saturates
    assert_eq!(w.add_timeout_at(9, u128::MAX, 2), Ok(()));
    assert_eq!(w.queue_len(), 2);
    assert!(w.can_transfer());
    w.transferTimeoutsToBuckets();
    // due tick 2 and due tick u128::MAX / 100, which hash to the same slot
    assert_eq!((u128::MAX / 100) % 4, 2);
    assert_eq!(w.bucket_len(2), 2);
}

#[test]
fn transfer_places_timeouts_by_due_tick() {
    let mut w = Worker::<u32>::new(100, 4, 0);
    assert!(w.start_at(1000));
    // due tick 9: slot 1, two full turns
    assert_eq!(w.add_timeout_at(1, 950, 1000), Ok(()));
    // due tick 2: slot 2, no full turn
    assert_eq!(w.add_timeout_at(2, 250, 1000), Ok(()));
    assert!(w.can_transfer());
    w.transferTimeoutsToBuckets();
    assert_eq!(w.queue_len(), 0);
    assert_eq!(w.bucket_len(0), 0);
    assert_eq!(w.bucket_len(1), 1);
    assert_eq!(w.bucket_len(2), 1);
    assert_eq!(w.bucket_len(3), 0);
}

#[test]
fn timeouts_expire_at_their_due_tick() {
    let mut w = Worker::<u32>::new(100, 4, 0);
    assert!(w.start_at(1000));
    assert_eq!(w.add_timeout_at(1, 950, 1000), Ok(()));
    assert_eq!(w.add_timeout_at(2, 250, 1000), Ok(()));
    let mut fired: Vec<(u128, u32)> = Vec::new();
    for _ in 0..12 {
        let tick = w.tick();
        assert!(w.can_transfer());
        let expired = w.run_tick(1);
        for t in expired {
            fired.push((tick, t.into_task()));
        }
    }
    assert_eq!(fired, vec![(2, 2), (9, 1)]);
    assert_eq!(w.tick(), 12);
}

#[test]
fn run_tick_with_zero_deadline_does_nothing() {
    let mut w = Worker::<u32>::new(100, 4, 0);
    assert!(w.start_at(1000));
    assert_eq!(w.add_timeout_at(1, 0, 1000), Ok(()));
    assert!(w.run_tick(0).is_empty());
    assert_eq!(w.tick(), 0);
    assert_eq!(w.queue_len(), 1);
    let expired = w.run_tick(5);
    assert_eq!(expired.len(), 1);
    assert_eq!(expired[0].deadline(), 0);
}

#[test]
fn late_timeouts_expire_on_the_current_tick() {
    let mut w = Worker::<u32>::new(100, 4, 0);
    assert!(w.start_at(1000));
    w.run_tick(1);
    w.run_tick(1);
    w.run_tick(1);
    // due tick 0, but the wheel is at tick 3
    assert_eq!(w.add_timeout_at(1, 50, 1000), Ok(()));
    assert!(w.can_transfer());
    let expired = w.run_tick(1);
    assert_eq!(expired.len(), 1);
    assert_eq!(*expired[0].task(), 1);
    assert_eq!(expired[0].remaining_rounds(), 0);
    assert_eq!(w.tick(), 4);
}

#[test]
fn zero_tick_duration_is_not_ready_to_transfer() {
    let mut zero = Worker::<u32>::new(0, 4, 0);
    assert!(zero.start_at(1000));
    assert_eq!(zero.add_timeout_at(1, 50, 1000), Ok(()));
    assert!(!zero.can_transfer());
}

#[test]
fn instance_warning_is_given_once_past_the_limit() {
    assert_eq!(instance_warning(64, false), (false, false));
    assert_eq!(instance_warning(65, false), (true, true));
    assert_eq!(instance_warning(66, true), (false, true));
}

#[test]
fn next_tick_wait_sleeps_then_fires() {
    let mut w = Worker::<u32>::new(100, 4, 0);
    assert!(w.start_at(1000));
    assert_eq!(w.next_tick_wait(1000), TickWait::Sleep(1));
    assert_eq!(w.next_tick_wait(1099), TickWait::Sleep(1));
    assert_eq!(w.next_tick_wait(1100), TickWait::Ready(100));
    // far behind the goal: the tick is due at once
    assert_eq!(w.next_tick_wait(5_000_000), TickWait::Ready(4_999_000));
}

#[test]
fn next_tick_wait_stops_a_worker_not_started() {
    let w = Worker::<u32>::new(100, 4, 0);
    assert_eq!(w.next_tick_wait(0), TickWait::Stop);
}

#[test]
fn timer_forwards_to_its_worker() {
    let mut timer = HashedWheelTimer::new(100, 4, 0);
    assert_eq!(timer.newTimeout(5u32, 0), Ok(true));
    let start = timer.worker().start_time();
    assert_eq!(timer.next_tick_wait(start), TickWait::Sleep(1));
    assert!(timer.can_transfer());
    let expired = timer.run_tick(1);
    assert_eq!(expired.len(), 1);
    assert_eq!(*expired[0].task(), 5);
}

#[test]
fn bucket_expires_used_up_rounds_and_counts_down_the_rest() {
    let mut bucket = HashedWheelBucket::new();
    bucket.addTimeout(HashedWheelTimeout::new('a', 10));
    bucket.addTimeout(HashedWheelTimeout::new('b', 20));
    let expired = bucket.expireTimeouts(0);
    assert_eq!(expired.len(), 2);
    assert_eq!(*expired[0].task(), 'a');
    assert_eq!(*expired[1].task(), 'b');
    assert!(bucket.expireTimeouts(0).is_empty());
}

#[test]
fn fresh_timeout_fields() {
    let t = HashedWheelTimeout::new("job", 42);
    assert_eq!(t.deadline(), 42);
    assert_eq!(t.remaining_rounds(), 0);
    assert_eq!(t.state(), TimeoutState::INIT);
    assert_eq!(t.into_task(), "job");
}
