use step_runtime::runtime::Runtime;
use step_runtime::task::Computation;

const SIXTIETH: u64 = 16_666_667;
const MS: u64 = 1_000_000;

#[test]
fn it_should_run_async_block_in_single_step() {
    let mut rt = Runtime::new();
    let mut h = rt.spawn(Computation::Value(1));
    rt.step(SIXTIETH);
    assert_eq!(h.poll(&mut rt), Some(1));
}

#[test]
fn it_should_run_nested_async_block_and_await_in_single_step() {
    let mut rt = Runtime::new();
    let mut h = rt.spawn(Computation::Sum(
        Box::new(Computation::Value(1)),
        Box::new(Computation::Sum(
            Box::new(Computation::Value(2)),
            Box::new(Computation::Value(3)),
        )),
    ));
    rt.step(SIXTIETH);
    assert_eq!(h.poll(&mut rt), Some(6));
}

#[test]
fn it_should_run_multiple_await_in_single_step() {
    let mut rt = Runtime::new();
    let mut h1 = rt.spawn(Computation::Sum(
        Box::new(Computation::Value(1)),
        Box::new(Computation::Value(2)),
    ));
    let mut h2 = rt.spawn(Computation::Sum(
        Box::new(Computation::Value(3)),
        Box::new(Computation::Value(4)),
    ));
    rt.step(SIXTIETH);
    assert_eq!(h1.poll(&mut rt), Some(3));
    assert_eq!(h2.poll(&mut rt), Some(7));
}

#[test]
fn it_should_run_nested_spawn_in_single_step() {
    let mut rt = Runtime::new();
    let mut h = rt.spawn(Computation::SpawnJoin(Box::new(Computation::Sum(
        Box::new(Computation::Value(1)),
        Box::new(Computation::Value(2)),
    ))));
    rt.step(SIXTIETH);
    assert_eq!(h.poll(&mut rt), Some(3));
}

#[test]
fn delay_future_should_wake_after_delay_time() {
    let mut rt = Runtime::new();
    let mut h = rt.spawn(Computation::DelayFor(
        32 * MS,
        Box::new(Computation::Value(1)),
    ));

    rt.step(0);
    assert_eq!(h.poll(&mut rt), None);
    rt.step(SIXTIETH);
    assert_eq!(h.poll(&mut rt), None);
    rt.step(SIXTIETH);
    assert_eq!(h.poll(&mut rt), Some(1));
}

#[test]
fn multi_delay_future_should_wake_after_delay_time() {
    let mut rt = Runtime::new();
    let mut h = rt.spawn(Computation::DelayFor(
        16 * MS,
        Box::new(Computation::DelayFor(
            16 * MS,
            Box::new(Computation::RaceDelays(
                16 * MS,
                32 * MS,
                Box::new(Computation::Value(1)),
            )),
        )),
    ));

    rt.step(0);
    assert_eq!(h.poll(&mut rt), None);
    rt.step(SIXTIETH);
    assert_eq!(h.poll(&mut rt), None);
    rt.step(SIXTIETH);
    assert_eq!(h.poll(&mut rt), None);
    rt.step(SIXTIETH);
    assert_eq!(h.poll(&mut rt), Some(1));
}

#[test]
fn step_zero_completes_ready_task() {
    let mut rt = Runtime::new();
    let mut h = rt.spawn(Computation::Value(7));
    rt.step(0);
    assert_eq!(h.poll(&mut rt), Some(7));
}

#[test]
fn tasks_complete_in_spawn_order() {
    let mut rt = Runtime::new();
    let mut ha = rt.spawn(Computation::Value(10));
    let mut hb = rt.spawn(Computation::Value(20));
    let mut hc = rt.spawn(Computation::Value(30));
    let (a, b, c) = (ha.id(), hb.id(), hc.id());
    rt.step(0);
    assert_eq!(rt.completion_log().as_slice(), &[a, b, c]);
    assert_eq!(ha.poll(&mut rt), Some(10));
    assert_eq!(hb.poll(&mut rt), Some(20));
    assert_eq!(hc.poll(&mut rt), Some(30));
}

#[test]
fn child_completes_before_its_spawning_parent() {
    let mut rt = Runtime::new();
    let mut h = rt.spawn(Computation::SpawnJoin(Box::new(Computation::Value(5))));
    let parent = h.id();
    rt.step(0);
    assert_eq!(h.poll(&mut rt), Some(5));
    // the child's id is allocated after the parent's, yet it finishes first
    let log = rt.completion_log().clone();
    assert_eq!(log.len(), 2);
    assert_eq!(log[1], parent);
    assert_ne!(log[0], parent);
}

#[test]
fn wake_for_unknown_id_changes_nothing() {
    let mut rt = Runtime::new();
    let mut h = rt.spawn(Computation::DelayFor(
        32 * MS,
        Box::new(Computation::Value(9)),
    ));
    rt.step(0);
    assert_eq!(rt.parked_count(), 1);

    // no task carries this id: the notification must be dropped silently
    rt.notify(123_456);
    rt.step(0);
    assert_eq!(rt.parked_count(), 1);
    assert_eq!(h.poll(&mut rt), None);
    assert_eq!(rt.completion_log().len(), 0);

    // and the delay still resolves normally afterwards
    rt.step(32 * MS);
    assert_eq!(h.poll(&mut rt), Some(9));
}

#[test]
fn delay_deadline_is_fixed_when_created() {
    let mut rt = Runtime::new();
    rt.step(5 * MS);
    let t = rt.delay(10 * MS);
    assert_eq!(t.deadline(), 15 * MS);
    assert!(!t.is_elapsed(&rt));
    rt.step(9 * MS);
    assert!(!t.is_elapsed(&rt));
    rt.step(1 * MS);
    assert!(t.is_elapsed(&rt));
}

#[test]
fn join_handle_is_one_shot() {
    let mut rt = Runtime::new();
    let mut h = rt.spawn(Computation::Value(4));
    rt.step(0);
    assert!(!h.is_taken());
    assert_eq!(h.poll(&mut rt), Some(4));
    assert!(h.is_taken());
    assert_eq!(h.poll(&mut rt), None);
}

#[test]
fn sum_wraps_around_on_overflow() {
    let mut rt = Runtime::new();
    let mut h = rt.spawn(Computation::Sum(
        Box::new(Computation::Value(u64::MAX)),
        Box::new(Computation::Value(2)),
    ));
    rt.step(0);
    assert_eq!(h.poll(&mut rt), Some(1));
}

#[test]
fn virtual_clock_accumulates_steps() {
    let mut rt = Runtime::new();
    assert_eq!(rt.now(), 0);
    rt.step(3);
    rt.step(4);
    assert_eq!(rt.now(), 7);
}

#[test]
fn handle_is_awaitable_by_another_task() {
    let mut rt = Runtime::new();
    let mut ha = rt.spawn(Computation::Value(3));
    let a = ha.id();
    let mut hb = rt.spawn(Computation::AwaitTask(a));
    rt.step(0);
    // the awaiting task consumed the value, so it reports it and the
    // first handle is left empty
    assert_eq!(hb.poll(&mut rt), Some(3));
    assert_eq!(ha.poll(&mut rt), None);
}

#[test]
fn stale_race_timeout_is_harmless() {
    let mut rt = Runtime::new();
    let mut h = rt.spawn(Computation::RaceDelays(
        16 * MS,
        32 * MS,
        Box::new(Computation::Value(2)),
    ));
    rt.step(0);
    assert_eq!(rt.pending_timer_count(), 2);
    rt.step(16 * MS);
    assert_eq!(h.poll(&mut rt), Some(2));
    // the longer delay's record lingers in the registry
    assert_eq!(rt.pending_timer_count(), 1);
    // when it fires, its wake finds no parked task and is dropped silently
    rt.step(16 * MS);
    assert_eq!(rt.pending_timer_count(), 0);
    assert_eq!(rt.parked_count(), 0);
}

#[test]
fn timer_future_can_be_awaited_in_a_computation() {
    let mut rt = Runtime::new();
    let t = rt.delay(10 * MS);
    let mut h = rt.spawn(Computation::WaitUntil(
        t.deadline(),
        Box::new(Computation::Value(8)),
    ));
    rt.step(9 * MS);
    assert_eq!(h.poll(&mut rt), None);
    rt.step(1 * MS);
    assert_eq!(h.poll(&mut rt), Some(8));
}
