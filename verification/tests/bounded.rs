//! The bounded queues: order, limits, wrapping around, and pushes that overlap.
use jiffy::lock::{Locking, Unlocking};
use jiffy::masked::{next_power_of_two, Again, Masked, Pop, Stage};
use jiffy::pause::{Pause, Platform};
use jiffy::shared::{Park, Pointer};
use jiffy::{basic, idea, usync_mpsc, vyukov};

fn linux() -> Platform {
    Platform {
        cpus: 8,
        x86: true,
        aarch64: false,
        windows: false,
        linux: true,
        android: false,
        apple: false,
    }
}

fn windows() -> Platform {
    Platform { windows: true, linux: false, ..linux() }
}

#[test]
fn basic_refuses_when_full_and_wraps_around() {
    let mut queue = basic::Queue::new(3);
    assert_eq!(queue.pop(), None::<u32>);
    for round in 0..5u32 {
        for n in 0..3 {
            assert_eq!(queue.push(10 * round + n), Ok(()));
        }
        assert_eq!(queue.push(99), Err(99));
        for n in 0..3 {
            assert_eq!(queue.pop(), Some(10 * round + n));
        }
        assert_eq!(queue.pop(), None);
    }
}

#[test]
fn basic_without_slots_refuses_everything() {
    let mut queue = basic::Queue::new(0);
    assert_eq!(queue.push(1u32), Err(1));
}

#[test]
fn basic_push_that_claimed_first_is_popped_first() {
    let mut queue = basic::Queue::new(4);
    let mut slow = basic::Push::new(1u32);
    while !matches!(slow.stage, basic::Stage::Publish { .. }) {
        slow = queue.push_step(slow);
    }
    assert_eq!(queue.push(2), Ok(()));
    let looked = queue.pop_step(basic::Pop::Look);
    assert!(matches!(looked, basic::Pop::Done(None)));
    slow = queue.push_step(slow);
    assert!(matches!(slow.stage, basic::Stage::Done(Ok(()))));
    assert_eq!(queue.pop(), Some(1));
    assert_eq!(queue.pop(), Some(2));
}

#[test]
fn basic_pop_gives_the_slot_back_only_at_its_end() {
    let mut queue = basic::Queue::new(1);
    assert_eq!(queue.push(1u32), Ok(()));
    let pop = queue.pop_step(basic::Pop::Look);
    let pop = queue.pop_step(pop);
    assert!(matches!(pop, basic::Pop::Post(1)));
    assert_eq!(queue.push(2), Err(2));
    let pop = queue.pop_step(pop);
    assert!(matches!(pop, basic::Pop::Done(Some(1))));
    assert_eq!(queue.push(2), Ok(()));
}

#[test]
fn basic_push_that_lost_backs_off() {
    let mut queue = basic::Queue::new(4);
    let mut loser = basic::Push::new(1u32);
    loser = queue.push_step(loser);
    assert_eq!(queue.push(2), Ok(()));
    loser = queue.push_step(loser);
    assert!(matches!(loser.stage, basic::Stage::Load { lost: true, .. }));
    assert_eq!(loser.pause(linux()), Pause::Spin(2));
    assert_eq!(loser.pause(linux()), Pause::Spin(4));
    assert_eq!(loser.pause(linux()), Pause::Spin(8));
    assert_eq!(loser.pause(linux()), Pause::Yield);
    assert_eq!(loser.pause(windows()), Pause::Spin(32));
    for _ in 0..20 {
        loser.pause(windows());
    }
    assert_eq!(loser.pause(windows()), Pause::Spin(1024));
    assert_eq!(loser.pause(Platform { x86: false, ..linux() }), Pause::Yield);
}

#[test]
fn vyukov_refuses_when_full_and_wraps_around() {
    let mut queue = vyukov::Queue::new(3);
    assert_eq!(queue.pop(), None::<u32>);
    for round in 0..5u32 {
        for n in 0..3 {
            assert_eq!(queue.push(10 * round + n), Ok(()));
        }
        assert_eq!(queue.push(99), Err(99));
        for n in 0..3 {
            assert_eq!(queue.pop(), Some(10 * round + n));
        }
        assert_eq!(queue.pop(), None);
    }
}

#[test]
fn vyukov_with_a_single_slot_overwrites() {
    let mut queue = vyukov::Queue::new(1);
    assert_eq!(queue.push(1u32), Ok(()));
    assert_eq!(queue.pop(), Some(1));
    assert_eq!(queue.push(2), Ok(()));
    assert_eq!(queue.push(3), Ok(()));
    assert_eq!(queue.pop(), None);
}

#[test]
fn vyukov_push_that_claimed_first_is_popped_first() {
    let mut queue = vyukov::Queue::new(4);
    let mut slow = vyukov::Push::new(1u32);
    while !matches!(slow.stage, vyukov::Stage::Publish { .. }) {
        slow = queue.push_step(slow);
    }
    assert_eq!(queue.push(2), Ok(()));
    assert!(matches!(queue.pop_step(vyukov::Pop::Look), vyukov::Pop::Done(None)));
    slow = queue.push_step(slow);
    assert!(matches!(slow.stage, vyukov::Stage::Done(Ok(()))));
    assert_eq!(queue.pop(), Some(1));
    assert_eq!(queue.pop(), Some(2));
}

#[test]
fn vyukov_push_that_was_slower_loads_again() {
    let mut queue = vyukov::Queue::new(4);
    let mut loser = vyukov::Push::new(1u32);
    loser = queue.push_step(loser);
    assert!(matches!(loser.stage, vyukov::Stage::LoadSeq { lost: false, .. }));
    assert_eq!(queue.push(2), Ok(()));
    loser = queue.push_step(loser);
    assert!(matches!(loser.stage, vyukov::Stage::LoadTail { lost: true, .. }));
    assert_eq!(loser.pause(linux()), Pause::Spin(1));
    assert_eq!(loser.pause(linux()), Pause::Spin(2));
    while !matches!(loser.stage, vyukov::Stage::Done(_)) {
        loser = queue.push_step(loser);
    }
    assert_eq!(queue.pop(), Some(2));
    assert_eq!(queue.pop(), Some(1));
}

#[test]
fn vyukov_backoff_yields_in_the_end() {
    let mut backoff = vyukov::Backoff::new();
    for expected in [1, 2, 4, 8, 16, 32, 64] {
        assert_eq!(backoff.yield_now(linux()), Pause::Spin(expected));
    }
    assert_eq!(backoff.yield_now(linux()), Pause::Yield);
    assert_eq!(backoff.yield_now(linux()), Pause::Yield);
    assert_eq!(backoff.yield_now(windows()), Pause::Spin(128));
}

#[test]
fn powers_of_two() {
    assert_eq!(next_power_of_two(0), 1);
    assert_eq!(next_power_of_two(1), 1);
    assert_eq!(next_power_of_two(2), 2);
    assert_eq!(next_power_of_two(3), 4);
    assert_eq!(next_power_of_two(1000), 1024);
    assert_eq!(next_power_of_two(usize::MAX / 2 + 1), usize::MAX / 2 + 1);
}

#[test]
fn masked_refuses_when_full_and_wraps_around() {
    let mut queue = Masked::new(4);
    assert_eq!(queue.mask(), 3);
    for round in 0..5u32 {
        for n in 0..4 {
            assert_eq!(queue.push(10 * round + n), Ok(()));
        }
        assert!(queue.is_stored(queue.producer));
        assert_eq!(queue.push(99), Err(99));
        for n in 0..4 {
            assert_eq!(queue.pop(), Some(10 * round + n));
        }
        assert_eq!(queue.pop(), None);
        assert!(!queue.is_stored(queue.consumer));
    }
    assert_eq!(queue.producer, 20);
    assert_eq!(queue.consumer, 20);
}

#[test]
fn masked_push_that_saw_an_old_position_starts_over() {
    let mut queue = Masked::new(2);
    let op = queue.push_step(Stage::Load { value: 1u32, again: Again::No });
    assert_eq!(queue.push(2), Ok(()));
    // The slot of the position that was seen is stored by now, but the position moved on.
    let op = queue.push_step(op);
    assert!(matches!(op, Stage::Recheck { .. }));
    let op = queue.push_step(op);
    assert!(matches!(op, Stage::Load { again: Again::Moved, .. }));
    let op = queue.push_step(op);
    let op = queue.push_step(op);
    assert!(matches!(op, Stage::Exchange { .. }));
    assert_eq!(queue.push(3), Ok(()));
    let op = queue.push_step(op);
    assert!(matches!(op, Stage::Load { again: Again::Lost, .. }));
    let op = queue.push_step(op);
    let op = queue.push_step(op);
    let op = queue.push_step(op);
    assert!(matches!(op, Stage::Done(Err(1))));
    assert!(matches!(queue.pop_step(Pop::Look), Pop::Take));
    assert_eq!(queue.pop(), Some(2));
    assert_eq!(queue.pop(), Some(3));
}

#[test]
fn usync_bounded_rounds_its_capacity_up() {
    let mut queue = usync_mpsc::bounded::Queue::new(3);
    assert_eq!(queue.mask, 3);
    assert!(queue.slots.is_none());
    assert_eq!(queue.try_pop(), None::<u32>);
    for n in 0..4 {
        assert_eq!(queue.try_push(n), Ok(()));
    }
    assert_eq!(queue.try_push(4), Err(4));
    for n in 0..4 {
        assert_eq!(queue.try_pop(), Some(n));
    }
    assert_eq!(queue.try_pop(), None);
}

#[test]
fn usync_bounded_second_allocation_is_thrown_away() {
    let mut queue = usync_mpsc::bounded::Queue::new(4);
    let mut slow = usync_mpsc::bounded::Push::new(1u32);
    slow = queue.push_step(slow);
    assert!(matches!(slow.step, usync_mpsc::bounded::Step::Install { .. }));
    assert_eq!(queue.try_push(2), Ok(()));
    slow = queue.push_step(slow);
    assert!(matches!(slow.step, usync_mpsc::bounded::Step::Run(_)));
    while !matches!(slow.step, usync_mpsc::bounded::Step::Run(Stage::Done(_))) {
        slow = queue.push_step(slow);
    }
    assert_eq!(queue.try_pop(), Some(2));
    assert_eq!(queue.try_pop(), Some(1));
}

#[test]
fn usync_bounded_push_waits_as_the_race_went() {
    let mut push = usync_mpsc::bounded::Push::new(1u32);
    assert_eq!(push.pause(linux()), Pause::Nothing);
    push.step = usync_mpsc::bounded::Step::Run(Stage::Load { value: 1, again: Again::Moved });
    assert_eq!(push.pause(linux()), Pause::Spin(1));
    push.step = usync_mpsc::bounded::Step::Run(Stage::Load { value: 1, again: Again::Lost });
    assert_eq!(push.pause(linux()), Pause::Spin(1));
    assert_eq!(push.pause(linux()), Pause::Spin(2));
    assert_eq!(push.pause(Platform { cpus: 1, ..linux() }), Pause::Nothing);
}

#[test]
fn idea_sends_and_receives_in_order() {
    let mut queue = idea::Queue::new(0);
    assert_eq!(queue.try_recv(), None::<u32>);
    assert_eq!(queue.try_send(1), Ok(()));
    assert_eq!(queue.try_send(2), Err(2));
    assert_eq!(queue.try_recv(), Some(1));
    let mut queue = idea::Queue::new(5);
    for n in 0..8u32 {
        queue.send(n);
    }
    assert_eq!(queue.try_send(8), Err(8));
    for n in 0..8u32 {
        assert_eq!(queue.recv(), n);
    }
    assert_eq!(queue.try_recv(), None);
}

/// Runs a send until it sleeps or is over.
fn run(queue: &mut idea::Queue<u32>, mut send: idea::Send<u32>) -> idea::Send<u32> {
    for _ in 0..100 {
        send = queue.send_step(send, 7, false, false);
        if let idea::Send::Done(_) = send {
            break;
        }
    }
    send
}

/// Runs a receive until it is over.
fn receive(queue: &mut idea::Queue<u32>) -> Option<u32> {
    let mut recv = idea::Recv::Look { block: false };
    loop {
        if let idea::Recv::Done(value) = recv {
            return value;
        }
        recv = queue.recv_step(recv, 8, false, false);
    }
}

#[test]
fn idea_send_sleeps_until_a_receive_makes_room() {
    let mut queue = idea::Queue::new(2);
    queue.send(1u32);
    queue.send(2);
    let send = run(&mut queue, idea::Queue::start(3, true));
    assert!(matches!(send, idea::Send::Wait { .. }));
    assert!(queue.wait.pending);
    // Nothing changes while there is no room.
    let send = run(&mut queue, send);
    assert!(matches!(send, idea::Send::Wait { .. }));
    assert_eq!(receive(&mut queue), Some(1));
    assert!(!queue.wait.pending);
    let send = run(&mut queue, send);
    assert!(matches!(send, idea::Send::Done(Ok(()))));
    assert_eq!(receive(&mut queue), Some(2));
    assert_eq!(receive(&mut queue), Some(3));
    assert_eq!(receive(&mut queue), None);
}

#[test]
fn idea_send_that_came_last_is_woken_first() {
    let mut queue = idea::Queue::new(1);
    queue.send(1u32);
    let a = run(&mut queue, idea::Queue::start(2, true));
    let b = run(&mut queue, idea::Queue::start(3, true));
    assert_eq!(receive(&mut queue), Some(1));
    let b = run(&mut queue, b);
    assert!(matches!(b, idea::Send::Done(Ok(()))));
    let a = run(&mut queue, a);
    assert!(matches!(a, idea::Send::Wait { .. }));
    assert_eq!(receive(&mut queue), Some(3));
    let a = run(&mut queue, a);
    assert!(matches!(a, idea::Send::Done(Ok(()))));
    assert_eq!(receive(&mut queue), Some(2));
}

#[test]
fn idea_send_that_finds_room_when_it_asks_again_does_not_sleep() {
    let mut queue = idea::Queue::new(1);
    queue.send(1u32);
    let mut send = idea::Queue::start(2, true);
    while !matches!(send, idea::Send::Check { .. }) {
        send = queue.send_step(send, 7, false, false);
    }
    // The receive frees the slot, sees that a send waits, and has to wait for the lock.
    let mut recv = idea::Recv::Look { block: false };
    for _ in 0..4 {
        recv = queue.recv_step(recv, 8, false, false);
    }
    assert!(matches!(recv, idea::Recv::Wake { value: 1, .. }));
    send = run(&mut queue, send);
    assert!(matches!(send, idea::Send::Done(Ok(()))));
    while !matches!(recv, idea::Recv::Done(_)) {
        recv = queue.recv_step(recv, 8, false, false);
    }
    assert!(matches!(recv, idea::Recv::Done(Some(1))));
    assert_eq!(receive(&mut queue), Some(2));
}

#[test]
fn idea_receive_sleeps_until_a_send() {
    let mut queue = idea::Queue::new(2);
    let mut recv = idea::Recv::Look { block: true };
    for _ in 0..20 {
        recv = queue.recv_step(recv, 8, false, false);
    }
    assert!(matches!(recv, idea::Recv::Park { .. }));
    let send = run(&mut queue, idea::Queue::start(5u32, false));
    assert!(matches!(send, idea::Send::Done(Ok(()))));
    for _ in 0..20 {
        recv = queue.recv_step(recv, 8, false, false);
    }
    assert!(matches!(recv, idea::Recv::Done(Some(5))));
}

#[test]
fn idea_receive_that_was_told_before_does_not_sleep() {
    let mut queue = idea::Queue::new(2);
    let mut recv = idea::Recv::Look { block: true };
    recv = queue.recv_step(recv, 8, false, false);
    recv = queue.recv_step(recv, 8, false, false);
    // It looks again once, and is then told while it is about to go to sleep.
    recv = queue.recv_step(recv, 8, false, true);
    recv = queue.recv_step(recv, 8, false, false);
    recv = queue.recv_step(recv, 8, false, false);
    queue.send(5u32);
    for _ in 0..20 {
        recv = queue.recv_step(recv, 8, false, false);
    }
    assert!(matches!(recv, idea::Recv::Done(Some(5))));
}

#[test]
fn idea_try_send_that_finds_the_queue_full_gives_the_value_back() {
    let mut queue = idea::Queue::new(1);
    queue.send(1u32);
    let send = run(&mut queue, idea::Queue::start(2, false));
    assert!(matches!(send, idea::Send::Done(Err(2))));
}

#[test]
fn idea_backoff_yields_in_the_end() {
    let mut backoff = idea::Backoff::new();
    assert!(!backoff.is_completed());
    for expected in [2, 4, 8] {
        assert_eq!(backoff.yield_now(linux()), Pause::Spin(expected));
    }
    assert!(!backoff.is_completed());
    assert_eq!(backoff.yield_now(linux()), Pause::Yield);
    assert!(backoff.is_completed());
    assert_eq!(backoff.yield_now(windows()), Pause::Spin(32));
}

#[test]
fn idea_waiting_spins_a_few_times_for_a_lock() {
    let mut waiting = idea::Waiting::new();
    let held = Locking::Check { id: 2, seen: Pointer { addr: 1 } };
    let queued = Locking::Check { id: 2, seen: Pointer { addr: 5 } };
    assert_eq!(waiting.again(&queued, linux()), (false, Pause::Nothing));
    assert_eq!(waiting.again(&held, linux()), (true, Pause::Spin(2)));
    assert_eq!(waiting.again(&held, linux()), (true, Pause::Spin(4)));
    assert_eq!(waiting.again(&held, linux()), (true, Pause::Spin(8)));
    assert_eq!(waiting.again(&held, linux()), (true, Pause::Yield));
    assert_eq!(waiting.again(&held, linux()), (false, Pause::Nothing));
    // Before it sleeps it spins as often again, each time that it does.
    let load = Locking::Park { id: 2, park: Park::Load };
    for _ in 0..2 {
        assert_eq!(waiting.again(&load, linux()), (true, Pause::Spin(2)));
        assert_eq!(waiting.again(&load, linux()), (true, Pause::Spin(4)));
        assert_eq!(waiting.look(true, linux()), (true, Pause::Spin(8)));
        assert_eq!(waiting.look(true, linux()), (true, Pause::Yield));
        assert_eq!(waiting.look(true, linux()), (false, Pause::Nothing));
        assert_eq!(waiting.look(false, linux()), (false, Pause::Nothing));
    }
    let lost = Locking::Load { id: 2, lost: true };
    assert_eq!(waiting.pause(&lost, linux()), Pause::Spin(2));
    assert_eq!(waiting.pause(&lost, linux()), Pause::Spin(4));
    assert_eq!(waiting.pause(&held, linux()), Pause::Nothing);
    assert_eq!(waiting.pause(&lost, linux()), Pause::Spin(2));
    assert_eq!(
        waiting.retry(&Stage::Load { value: 1, again: Again::Moved }, linux()),
        Pause::Spin(1)
    );
    assert_eq!(
        waiting.retry(&Stage::Load { value: 1, again: Again::Lost }, linux()),
        Pause::Spin(4)
    );
}

#[test]
fn vyukov_value_that_is_overwritten_is_not_dropped() {
    let token = std::rc::Rc::new(());
    let mut queue = vyukov::Queue::new(1);
    assert!(queue.push(token.clone()).is_ok());
    assert!(queue.push(token.clone()).is_ok());
    assert_eq!(std::rc::Rc::strong_count(&token), 3);
    assert!(queue.pop().is_none());
    let mut queue = vyukov::Queue::new(2);
    for _ in 0..5 {
        assert!(queue.push(token.clone()).is_ok());
        assert_eq!(std::rc::Rc::strong_count(&token), 4);
        assert!(queue.pop().is_some());
    }
}

#[test]
fn idea_thread_that_loses_the_exchange_of_a_lock_spins_once() {
    let waiting = idea::Waiting::new();
    assert_eq!(waiting.release(&Unlocking::Fast), Pause::Nothing);
    assert_eq!(waiting.release(&Unlocking::Load { lost: false }), Pause::Nothing);
    assert_eq!(waiting.release(&Unlocking::Load { lost: true }), Pause::Spin(1));
    let seen = Pointer { addr: 5 };
    assert_eq!(waiting.release(&Unlocking::Pop { seen }), Pause::Nothing);
}

#[test]
fn masked_value_that_is_overwritten_is_not_dropped() {
    let token = std::rc::Rc::new(());
    let mut queue = Masked::new(1);
    let mut a = Stage::Load { value: token.clone(), again: Again::No };
    let mut b = Stage::Load { value: token.clone(), again: Again::No };
    while !matches!(a, Stage::Publish { .. }) {
        a = queue.push_step(a);
    }
    while !matches!(b, Stage::Publish { .. }) {
        b = queue.push_step(b);
    }
    assert!(matches!(queue.push_step(a), Stage::Done(Ok(()))));
    assert!(matches!(queue.push_step(b), Stage::Done(Ok(()))));
    assert_eq!(std::rc::Rc::strong_count(&token), 3);
}
