//! Locks, waiting lists, parkers, and the queues that sleep on them.
use jiffy::chain::Recv;
use jiffy::lock::{Lock, Locking, Unlocking};
use jiffy::pause::{Pause, Platform};
use jiffy::shared::{self, Pointer, StrictProvenance, Waiter, Word};
use jiffy::usync_mpsc::rendezvous;
use jiffy::usync_mpsc::utils::{backoff, parker};
use jiffy::wait_list::{Own, WaitList, Wake};
use jiffy::wait_queue::{self, Sleep, WaitQueue};
use jiffy::{protty_mpsc, sharded_lock_mpsc};

fn linux() -> Platform {
    Platform {
        cpus: 8,
        x86: true,
        aarch64: false,
        windows: false,
        linux: true,
        android: false,
        apple: false,
    }
}

#[test]
fn pointers_carry_tags() {
    let pointer = Pointer::tagged(128, 5, 32);
    assert_eq!(pointer.addr(), 133);
    assert_eq!(pointer.untagged(32), 128);
    assert_eq!(pointer.tag(32), 5);
    assert_eq!(pointer.with_addr(64).addr(), 64);
    assert_eq!(pointer.map_addr(|addr| addr + 1).addr(), 134);
}

#[test]
fn shared_backoff_spins_and_then_yields() {
    let mut spin = shared::Backoff::default();
    for _ in 0..32 {
        assert!(spin.try_yield_now(linux()));
    }
    assert!(!spin.try_yield_now(linux()));
    let mut spin = shared::Backoff::default();
    assert!(!spin.try_yield_now(Platform { x86: false, ..linux() }));
    for expected in [2, 4, 8] {
        assert_eq!(spin.yield_now(linux()), Pause::Spin(expected));
    }
    assert_eq!(spin.yield_now(linux()), Pause::Yield);
    let windows = Platform { windows: true, linux: false, ..linux() };
    assert_eq!(spin.yield_now(windows), Pause::Spin(32));
    assert_eq!(spin.yield_now(Platform { x86: false, ..windows }), Pause::Yield);
}

#[test]
fn usync_backoff_depends_on_the_machine() {
    let mut spin = backoff::Backoff::new();
    assert!(!spin.try_yield_now(Platform { cpus: 1, ..linux() }));
    for _ in 0..32 {
        assert!(spin.try_yield_now(linux()));
    }
    assert!(!spin.try_yield_now(linux()));
    let other = Platform { linux: false, ..linux() };
    let mut wait = backoff::Backoff::default();
    for expected in [1, 2, 4, 8, 16, 32, 64] {
        assert_eq!(wait.yield_now(other), Pause::Spin(expected));
    }
    assert_eq!(wait.yield_now(other), Pause::Yield);
    assert_eq!(wait.yield_now(linux()), Pause::Spin(128));
    assert_eq!(wait.yield_now(Platform { cpus: 1, ..linux() }), Pause::Nothing);
}

#[test]
fn shared_parker_wakes_the_thread_that_sleeps() {
    let mut place = shared::Parker::new(42);
    assert!(!place.park());
    assert_eq!(place.unpark(), 42);
    assert!(place.park());
}

#[test]
fn waiter_that_sleeps_is_released_and_woken() {
    let mut waiter = Waiter::new();
    let mut park = shared::Park::Load;
    park = waiter.park(park, 9, true);
    assert!(matches!(park, shared::Park::Load));
    park = waiter.park(park, 9, false);
    park = waiter.park(park, 9, false);
    assert!(matches!(park, shared::Park::Wait));
    assert!(waiter.parker == Word::Parked);
    park = waiter.park(park, 9, false);
    assert!(matches!(park, shared::Park::Wait));
    let mut unpark = waiter.unpark(shared::Unpark::Swap);
    assert!(matches!(unpark, shared::Unpark::Release));
    park = waiter.park(park, 9, false);
    assert!(matches!(park, shared::Park::Wait));
    unpark = waiter.unpark(unpark);
    assert!(matches!(unpark, shared::Unpark::Wake(9)));
    while !matches!(park, shared::Park::Done) {
        park = waiter.park(park, 9, false);
    }
    assert!(waiter.parker == Word::Empty);
}

#[test]
fn waiter_that_was_told_before_does_not_sleep() {
    let mut waiter = Waiter::new();
    assert!(matches!(waiter.unpark(shared::Unpark::Swap), shared::Unpark::Done));
    let park = waiter.park(shared::Park::Load, 9, false);
    assert!(matches!(park, shared::Park::Reset));
    assert!(matches!(waiter.park(park, 9, false), shared::Park::Done));
}

#[test]
fn usync_parker_gives_up_at_its_deadline() {
    let mut parker = parker::Parker::new();
    let mut parking = parker::Parking::new();
    let single = Platform { cpus: 1, ..linux() };
    while !matches!(parking.stage, parker::Park::Wait) {
        parking = parker.park(parking, 3, false, single);
    }
    parking = parker.park(parking, 3, false, single);
    assert!(matches!(parking.stage, parker::Park::Wait));
    parking = parker.park(parking, 3, true, single);
    parking = parker.park(parking, 3, true, single);
    assert!(matches!(parking.stage, parker::Park::Done(false)));
    assert!(parker.event == Word::Empty);
}

#[test]
fn usync_parker_that_is_told_too_late_to_withdraw_waits_for_the_event() {
    let mut parker = parker::Parker::new();
    let mut parking = parker::Parking::new();
    let single = Platform { cpus: 1, ..linux() };
    while !matches!(parking.stage, parker::Park::Wait) {
        parking = parker.park(parking, 3, false, single);
    }
    parking = parker.park(parking, 3, true, single);
    let mut unpark = parker.unpark(parker::Unpark::Load);
    unpark = parker.unpark(unpark);
    assert!(matches!(unpark, parker::Unpark::Release));
    parking = parker.park(parking, 3, true, single);
    assert!(matches!(parking.stage, parker::Park::WaitOn));
    unpark = parker.unpark(unpark);
    assert!(matches!(unpark, parker::Unpark::Wake(3)));
    while !matches!(parking.stage, parker::Park::Done(_)) {
        parking = parker.park(parking, 3, true, single);
    }
    assert!(matches!(parking.stage, parker::Park::Done(true)));
}

#[test]
fn usync_parker_spins_where_that_is_cheap() {
    let mut parker = parker::Parker::new();
    let mut parking = parker::Parking::new();
    let mut looks = 0;
    while !matches!(parking.stage, parker::Park::Exchange) {
        if let parker::Park::Look = parking.stage {
            looks += 1;
        }
        parking = parker.park(parking, 3, false, linux());
    }
    assert_eq!(looks, 33);
}

#[test]
fn usync_event_happens_once() {
    let mut event = parker::Event::new(5);
    assert_eq!(event.wait(false), None);
    assert_eq!(event.wait(true), Some(false));
    assert_eq!(event.happen(), 5);
    assert_eq!(event.wait(true), Some(true));
}

#[test]
fn lock_excludes_and_wakes_the_waiter_that_came_last() {
    let mut lock = Lock::new(1u32);
    let a = lock.lock_step(Locking::Fast, 1, false, false);
    assert!(matches!(a, Locking::Held));
    let mut b = Locking::Fast;
    let mut c = Locking::Fast;
    for _ in 0..10 {
        b = lock.lock_step(b, 2, false, false);
    }
    for _ in 0..10 {
        c = lock.lock_step(c, 3, false, false);
    }
    assert!(matches!(b, Locking::Park { .. }));
    assert!(matches!(c, Locking::Park { .. }));
    lock.value += 1;
    let mut give = Unlocking::Fast;
    while !matches!(give, Unlocking::Done) {
        give = lock.unlock_step(give, false, false);
    }
    for _ in 0..10 {
        b = lock.lock_step(b, 2, false, false);
        c = lock.lock_step(c, 3, false, false);
    }
    assert!(matches!(b, Locking::Park { .. }));
    assert!(matches!(c, Locking::Held));
    assert_eq!(lock.value, 2);
    let mut give = Unlocking::Fast;
    while !matches!(give, Unlocking::Done) {
        give = lock.unlock_step(give, false, false);
    }
    for _ in 0..10 {
        b = lock.lock_step(b, 2, false, false);
    }
    assert!(matches!(b, Locking::Held));
}

#[test]
fn lock_that_nobody_holds_is_got_at_once() {
    let mut lock = Lock::new("value");
    lock.lock();
    assert_eq!(lock.state.addr, 1);
    lock.unlock();
    assert_eq!(lock.state.addr, 0);
    assert_eq!(lock.value, "value");
}

#[test]
fn wait_list_wakes_everybody() {
    let mut list = WaitList::new();
    assert!(!list.should_park());
    let mut a = Own::Free;
    let mut b = Own::Free;
    for _ in 0..8 {
        a = list.own_step(a, 1, false);
        b = list.own_step(b, 2, false);
    }
    assert!(matches!(a, Own::Listed { .. }));
    assert!(matches!(b, Own::Listed { .. }));
    assert!(list.should_park());
    let mut wake = Wake::Swap;
    while !matches!(wake, Wake::Idle) {
        wake = list.wake_step(wake);
    }
    assert!(!list.should_park());
    for _ in 0..8 {
        if !matches!(a, Own::Free) {
            a = list.own_step(a, 1, false);
        }
        if !matches!(b, Own::Free) {
            b = list.own_step(b, 2, false);
        }
    }
    assert!(matches!(a, Own::Free));
    assert!(matches!(b, Own::Free));
}

#[test]
fn wait_queue_wakes_one_at_a_time() {
    let mut queue = WaitQueue::new();
    let mut a = Sleep::Start;
    let mut b = Sleep::Start;
    for _ in 0..12 {
        a = queue.park_if(a, 1, false, false, true);
    }
    for _ in 0..12 {
        b = queue.park_if(b, 2, false, false, true);
    }
    assert!(matches!(a, Sleep::Park { .. }));
    assert!(matches!(b, Sleep::Park { .. }));
    assert!(queue.pending);
    let mut wake = wait_queue::Wake::Peek;
    while !matches!(wake, wait_queue::Wake::Done) {
        wake = queue.unpark_one(wake, 3, false, false);
    }
    for _ in 0..12 {
        a = queue.park_if(a, 1, false, false, true);
        b = queue.park_if(b, 2, false, false, true);
    }
    assert!(matches!(a, Sleep::Park { .. }));
    assert!(matches!(b, Sleep::Done));
    assert!(queue.pending);
    let mut wake = wait_queue::Wake::Peek;
    while !matches!(wake, wait_queue::Wake::Done) {
        wake = queue.unpark_one(wake, 3, false, false);
    }
    assert!(!queue.pending);
    for _ in 0..12 {
        a = queue.park_if(a, 1, false, false, true);
    }
    assert!(matches!(a, Sleep::Done));
}

#[test]
fn wait_queue_whose_condition_does_not_hold_does_not_sleep() {
    let mut queue = WaitQueue::new();
    let mut a = Sleep::Start;
    while !matches!(a, Sleep::Done) {
        a = queue.park_if(a, 1, false, false, false);
    }
    assert!(!queue.pending);
    assert!(matches!(
        queue.unpark_one(wait_queue::Wake::Peek, 3, false, false),
        wait_queue::Wake::Done
    ));
    queue.unpark_none();
    assert!(!queue.pending);
}

#[test]
fn sharded_queue_keeps_the_order_of_each_deque() {
    let mut queue = sharded_lock_mpsc::MpscQueue::new(2);
    assert_eq!(queue.pop(), None::<u32>);
    for n in 0..6u32 {
        queue.push(n);
    }
    // The deques take turns: 0, 2, 4 went to the first and 1, 3, 5 to the second.
    for expected in [0, 2, 4, 1, 3, 5] {
        assert_eq!(queue.pop(), Some(expected));
    }
    assert_eq!(queue.pop(), None);
}

#[test]
fn sharded_push_is_seen_once_it_has_noted_its_value() {
    let mut queue = sharded_lock_mpsc::MpscQueue::new(1);
    let mut push = sharded_lock_mpsc::Push::Bump { value: 1u32 };
    while !matches!(push, sharded_lock_mpsc::Push::Pend { .. }) {
        push = queue.push_step(push, 1, false, false);
    }
    assert_eq!(queue.pop(), None);
    push = queue.push_step(push, 1, false, false);
    assert!(matches!(push, sharded_lock_mpsc::Push::Done));
    assert_eq!(queue.pop(), Some(1));
}

#[test]
fn sharded_backoff_and_waiting() {
    let mut spin = sharded_lock_mpsc::Backoff::new();
    for _ in 0..32 {
        assert!(spin.try_yield_now());
    }
    assert!(!spin.try_yield_now());
    let mut wait = sharded_lock_mpsc::Backoff::new();
    for expected in [2, 4, 8] {
        assert_eq!(wait.yield_now(linux()), Pause::Spin(expected));
    }
    assert_eq!(wait.yield_now(linux()), Pause::Yield);
    let windows = Platform { windows: true, linux: false, ..linux() };
    assert_eq!(wait.yield_now(windows), Pause::Spin(32));
    assert_eq!(wait.yield_now(windows), Pause::Spin(32));

    let mut waiting = sharded_lock_mpsc::Waiting::new();
    let held = Locking::Check { id: 2, seen: Pointer { addr: 1 } };
    assert!(waiting.again(&held));
    assert!(!waiting.again(&Locking::Check { id: 2, seen: Pointer { addr: 5 } }));
    assert_eq!(waiting.pause(&Locking::Load { id: 2, lost: true }, linux()), Pause::Spin(2));
    assert_eq!(waiting.pause(&held, linux()), Pause::Nothing);
    assert_eq!(waiting.pause(&Locking::Load { id: 2, lost: true }, linux()), Pause::Spin(2));
}

#[test]
fn protty_mpsc_keeps_the_order_over_many_blocks() {
    let mut queue = protty_mpsc::MpscQueue::new();
    assert_eq!(queue.pop(), None::<u32>);
    for n in 0..200u32 {
        queue.push(n);
    }
    for n in 0..200u32 {
        assert_eq!(queue.pop(), Some(n));
    }
    assert_eq!(queue.pop(), None);
    assert_eq!(protty_mpsc::CAPACITY, 31);
}

fn pop_protty(queue: &mut protty_mpsc::MpscQueue<u32>) -> Option<u32> {
    let mut recv = Recv::Head;
    loop {
        if let Recv::Done(value) = recv {
            return value;
        }
        recv = queue.pop_step(recv);
    }
}

#[test]
fn protty_mpsc_push_sleeps_while_the_next_block_is_installed() {
    let mut queue = protty_mpsc::MpscQueue::new();
    for n in 0..30u32 {
        queue.push(n);
    }
    // The push that claims the last slot of the block has to install the next one.
    let mut last = protty_mpsc::Push::new(30u32);
    while !matches!(last.stage, protty_mpsc::Stage::Install { .. }) {
        last = queue.push_step(last, 1, false, false);
    }
    let mut late = protty_mpsc::Push::new(31u32);
    let mut patience = protty_mpsc::Patience::new();
    let mut looks = 0;
    for _ in 0..300 {
        let again = patience.again(&late, &queue);
        if again {
            looks += 1;
        }
        late = queue.push_step(late, 2, false, again);
    }
    assert_eq!(looks, 32);
    assert!(matches!(late.stage, protty_mpsc::Stage::Rest { .. }));
    while !matches!(last.stage, protty_mpsc::Stage::Done) {
        last = queue.push_step(last, 1, false, false);
    }
    while !matches!(late.stage, protty_mpsc::Stage::Done) {
        late = queue.push_step(late, 2, false, false);
    }
    for n in 0..32u32 {
        assert_eq!(pop_protty(&mut queue), Some(n));
    }
    assert_eq!(pop_protty(&mut queue), None);
}

#[test]
fn protty_mpsc_push_that_lost_backs_off() {
    let mut queue = protty_mpsc::MpscQueue::new();
    queue.push(0u32);
    let mut loser = protty_mpsc::Push::new(1u32);
    let mut patience = protty_mpsc::Patience::new();
    assert_eq!(patience.pause(&loser, linux()), Pause::Nothing);
    loser = queue.push_step(loser, 1, false, false);
    assert!(matches!(loser.stage, protty_mpsc::Stage::Exchange { .. }));
    queue.push(2);
    loser = queue.push_step(loser, 1, false, false);
    assert!(matches!(loser.stage, protty_mpsc::Stage::Load { lost: true, .. }));
    assert_eq!(patience.pause(&loser, linux()), Pause::Spin(2));
    assert_eq!(patience.pause(&loser, linux()), Pause::Spin(4));
}

#[test]
fn rendezvous_values_are_taken_in_order_from_pushes_that_wait() {
    let mut queue = rendezvous::Queue::new();
    assert_eq!(queue.try_pop(), Ok(None::<u32>));
    let mut pushes = vec![queue.push(1), queue.push(2), queue.push(3)];
    for _ in 0..10 {
        pushes =
            pushes.into_iter().map(|push| queue.push_step(push, 7, false, linux())).collect();
    }
    assert!(pushes.iter().all(|push| matches!(push, rendezvous::Push::Rest { .. })));
    assert_eq!(queue.try_pop(), Ok(Some(1)));
    assert_eq!(queue.try_pop(), Ok(Some(2)));
    assert_eq!(queue.try_pop(), Ok(Some(3)));
    assert_eq!(queue.try_pop(), Ok(None));
}

#[test]
fn rendezvous_try_push_needs_a_receiver() {
    let mut queue = rendezvous::Queue::new();
    assert_eq!(queue.try_push(1u32), Err(Ok(1)));
    queue.disconnect(true);
    assert_eq!(queue.try_push(2), Err(Err(2)));
    assert_eq!(queue.try_pop(), Err(()));
}

#[test]
fn rendezvous_disconnect_ends_the_pushes_that_wait() {
    let mut queue = rendezvous::Queue::new();
    let mut push = queue.push(1u32);
    let single = Platform { cpus: 1, ..linux() };
    for _ in 0..20 {
        push = queue.push_step(push, 7, false, single);
    }
    assert!(matches!(push, rendezvous::Push::Rest { .. }));
    queue.disconnect(false);
    for _ in 0..20 {
        push = queue.push_step(push, 7, false, single);
    }
    assert!(matches!(push, rendezvous::Push::Done(Err(1))));
    let mut late = queue.push(2);
    for _ in 0..20 {
        late = queue.push_step(late, 7, false, single);
    }
    assert!(matches!(late, rendezvous::Push::Done(Err(2))));
}

#[test]
fn rendezvous_pop_that_waits_ends_with_the_senders() {
    let mut queue = rendezvous::Queue::<u32>::new();
    let single = Platform { cpus: 1, ..linux() };
    let mut pop = queue.pop();
    for _ in 0..20 {
        pop = queue.pop_step(pop, 7, single);
    }
    assert!(matches!(pop, rendezvous::Pop::Rest { .. }));
    queue.disconnect(true);
    for _ in 0..20 {
        pop = queue.pop_step(pop, 7, single);
    }
    assert!(matches!(pop, rendezvous::Pop::Done(Err(()))));
}

#[test]
fn rendezvous_pop_takes_what_is_there() {
    let mut queue = rendezvous::Queue::new();
    let mut push = queue.push(5u32);
    for _ in 0..10 {
        push = queue.push_step(push, 7, false, linux());
    }
    assert!(matches!(push, rendezvous::Push::Rest { .. }));
    let mut pop = queue.pop();
    for _ in 0..20 {
        pop = queue.pop_step(pop, 8, linux());
    }
    assert!(matches!(pop, rendezvous::Pop::Done(Ok(5))));
}

#[test]
fn lock_exchange_that_is_lost_is_made_again() {
    for reload in [false, true] {
        let mut lock = Lock::new(());
        assert!(matches!(lock.lock_step(Locking::Fast, 1, false, false), Locking::Held));
        let mut b = Locking::Fast;
        for _ in 0..10 {
            b = lock.lock_step(b, 2, false, false);
        }
        let mut give = lock.unlock_step(Unlocking::Fast, false, reload);
        assert!(matches!(give, Unlocking::Load { lost: false }));
        give = lock.unlock_step(give, false, reload);
        assert!(matches!(give, Unlocking::Pop { .. }));
        let mut c = Locking::Fast;
        for _ in 0..10 {
            c = lock.lock_step(c, 3, false, false);
        }
        give = lock.unlock_step(give, false, reload);
        if reload {
            assert!(matches!(give, Unlocking::Load { lost: true }));
            give = lock.unlock_step(give, false, reload);
        }
        assert!(matches!(give, Unlocking::Pop { .. }));
        while !matches!(give, Unlocking::Done) {
            give = lock.unlock_step(give, false, reload);
        }
        for _ in 0..10 {
            b = lock.lock_step(b, 2, false, false);
            c = lock.lock_step(c, 3, false, false);
        }
        assert!(matches!(b, Locking::Park { .. }));
        assert!(matches!(c, Locking::Held));
    }
}

#[test]
fn rendezvous_try_push_serves_a_receiver_wherever_it_is() {
    for event in [Word::Empty, Word::Parked, Word::Notified] {
        let mut queue = rendezvous::Queue::new();
        let mut receiver = rendezvous::Waiter::new(None);
        receiver.parker.event = event;
        receiver.parker.place.thread = Some(7);
        let id = queue.waiters.allocate(receiver);
        queue.state = Pointer { addr: id + rendezvous::IS_RECEIVER };
        assert_eq!(queue.try_push(3u32), Ok(()));
        assert_eq!(queue.state.addr, 0);
        let receiver = queue.waiters.get(id);
        assert_eq!(receiver.value, Some(3));
        assert_eq!(receiver.parker.event, Word::Notified);
        assert_eq!(receiver.parker.place.is_set, event == Word::Parked);
    }
}
