use async_rust_playground::event_loop::{Registration, TimerStep, Worker};

fn reg(at: u64, wake: u32) -> Registration<u32> {
    Registration { at, wake }
}

/// Three registrations for the identical deadline all fire exactly once
/// when it elapses, in the order they were registered.
#[test]
fn same_instant_fan_out() {
    let mut w: Worker<u32> = Worker::new();
    w.enroll(reg(100, 1));
    w.enroll(reg(100, 2));
    w.enroll(reg(100, 3));
    let mut counter: u32 = 0;
    match w.work_step(100) {
        TimerStep::Fired(at, wakes) => {
            assert_eq!(at, 100);
            assert_eq!(wakes, vec![1, 2, 3]);
            for _wake in wakes {
                counter += 1;
            }
        }
        _ => panic!("the elapsed deadline must fire"),
    }
    assert_eq!(counter, 3);
    // the deadline fired exactly once: nothing is left to fire
    match w.work_step(100) {
        TimerStep::Idle => {}
        _ => panic!("a fired deadline must be gone"),
    }
}

/// A registration earlier than the deadline the worker is waiting on
/// becomes the next deadline and fires first.
#[test]
fn earlier_registration_fires_first() {
    let mut w: Worker<u32> = Worker::new();
    w.enroll(reg(1000, 1));
    match w.work_step(10) {
        TimerStep::Wait(d) => assert_eq!(d, 1000),
        _ => panic!("the worker must wait for the pending deadline"),
    }
    // while waiting, an earlier registration arrives
    w.enroll(reg(50, 2));
    match w.work_step(10) {
        TimerStep::Wait(d) => assert_eq!(d, 50),
        _ => panic!("the earlier deadline must be waited on instead"),
    }
    match w.work_step(50) {
        TimerStep::Fired(at, wakes) => {
            assert_eq!(at, 50);
            assert_eq!(wakes, vec![2]);
        }
        _ => panic!("the earlier deadline must fire first"),
    }
    match w.work_step(50) {
        TimerStep::Wait(d) => assert_eq!(d, 1000),
        _ => panic!("the original deadline must still be pending"),
    }
}

/// An idle worker blocks indefinitely; once a registration arrives it
/// fires at its deadline and not before.
#[test]
fn idle_then_wake() {
    let mut w: Worker<u32> = Worker::new();
    match w.work_step(0) {
        TimerStep::Idle => {}
        _ => panic!("an empty active set must leave the worker idle"),
    }
    w.enroll(reg(70, 9));
    match w.work_step(69) {
        TimerStep::Wait(d) => assert_eq!(d, 70),
        _ => panic!("the deadline must not fire early"),
    }
    match w.work_step(70) {
        TimerStep::Fired(at, wakes) => {
            assert_eq!(at, 70);
            assert_eq!(wakes, vec![9]);
        }
        _ => panic!("the elapsed deadline must fire"),
    }
}

/// Registrations for distinct deadlines keep their own queues, and firing
/// hands back each deadline's handles separately, earliest first.
#[test]
fn distinct_deadlines_fire_separately() {
    let mut w: Worker<u32> = Worker::new();
    w.enroll(reg(30, 1));
    w.enroll(reg(10, 2));
    w.enroll(reg(20, 3));
    w.enroll(reg(10, 4));
    assert_eq!(w.next_deadline(), Some(10));
    assert_eq!(w.fire(10), vec![2, 4]);
    assert_eq!(w.next_deadline(), Some(20));
    assert_eq!(w.fire(20), vec![3]);
    assert_eq!(w.next_deadline(), Some(30));
    assert_eq!(w.fire(30), vec![1]);
    assert_eq!(w.next_deadline(), None);
}

/// A deadline that has long passed still fires with everything queued for
/// it; several elapsed deadlines fire earliest first, one step each.
#[test]
fn elapsed_deadlines_fire_in_order() {
    let mut w: Worker<u32> = Worker::new();
    w.enroll(reg(5, 1));
    w.enroll(reg(3, 2));
    match w.work_step(100) {
        TimerStep::Fired(at, wakes) => {
            assert_eq!(at, 3);
            assert_eq!(wakes, vec![2]);
        }
        _ => panic!("the earliest elapsed deadline must fire"),
    }
    match w.work_step(100) {
        TimerStep::Fired(at, wakes) => {
            assert_eq!(at, 5);
            assert_eq!(wakes, vec![1]);
        }
        _ => panic!("the remaining elapsed deadline must fire"),
    }
    match w.work_step(100) {
        TimerStep::Idle => {}
        _ => panic!("nothing must be left active"),
    }
}
