//! The unbounded queues: order, block boundaries, and sends that overlap.
use jiffy::chain::Recv;
use jiffy::pause::{Pause, Platform};
use jiffy::{block, block_mpsc, eager, loo_ish, ploo_mpsc, protty, protty_mpsc, usync_mpsc};

fn linux() -> Platform {
    Platform {
        cpus: 8,
        x86: true,
        aarch64: false,
        windows: false,
        linux: true,
        android: false,
        apple: false,
    }
}

fn arm_mac() -> Platform {
    Platform { x86: false, aarch64: true, linux: false, apple: true, ..linux() }
}

#[test]
fn eager_keeps_the_order_over_many_blocks() {
    let mut queue = eager::Eager::new();
    assert_eq!(queue.try_pop(), None::<u32>);
    for n in 0..200u32 {
        queue.push(n);
    }
    for n in 0..200u32 {
        assert_eq!(queue.try_pop(), Some(n));
    }
    assert_eq!(queue.try_pop(), None);
}

#[test]
fn block_queue_keeps_the_order() {
    let mut queue = block::Queue::empty();
    assert_eq!(queue.try_recv(), None::<u32>);
    for n in 0..100u32 {
        queue.send(n);
        if n % 3 == 0 {
            assert_eq!(queue.try_recv(), Some(n / 3));
        }
    }
    for n in 34..100u32 {
        assert_eq!(queue.try_recv(), Some(n));
    }
    assert_eq!(queue.try_recv(), None);
}

#[test]
fn block_send_that_overtakes_another_is_received_behind_it() {
    let mut queue = block::Queue::empty();
    queue.send(0u32);
    let mut slow = block::Send::new(1u32);
    while !matches!(slow.push, eager::Push::Publish { .. }) {
        slow = queue.send_step(slow, false);
    }
    queue.send(2);
    assert_eq!(queue.try_recv(), Some(0));
    // The slot of 1 is claimed and not yet stored, so 2 cannot be received before it.
    let mut recv = Recv::Head;
    while !matches!(recv, Recv::Done(_)) {
        recv = queue.recv_step(recv);
    }
    assert!(matches!(recv, Recv::Done(None)));
    slow = queue.send_step(slow, false);
    assert!(matches!(slow.push, eager::Push::Done));
    assert_eq!(queue.try_recv(), Some(1));
    assert_eq!(queue.try_recv(), Some(2));
    assert_eq!(queue.try_recv(), None);
}

#[test]
fn block_send_that_loses_the_exchange_backs_off() {
    let mut queue = block::Queue::empty();
    queue.send(0u32);
    let mut loser = block::Send::new(1u32);
    loser = queue.send_step(loser, false);
    assert!(matches!(loser.push, eager::Push::Exchange { .. }));
    assert_eq!(loser.pause(linux()), Pause::Nothing);
    queue.send(2);
    loser = queue.send_step(loser, false);
    assert!(matches!(loser.push, eager::Push::Load { lost: true, .. }));
    assert_eq!(loser.pause(linux()), Pause::Spin(2));
    assert_eq!(loser.pause(linux()), Pause::Spin(4));
    assert_eq!(loser.pause(Platform { x86: false, ..linux() }), Pause::Yield);
    // The exchange may fail without a reason.
    loser = queue.send_step(loser, false);
    loser = queue.send_step(loser, true);
    assert!(matches!(loser.push, eager::Push::Load { lost: true, .. }));
    while !matches!(loser.push, eager::Push::Done) {
        loser = queue.send_step(loser, false);
    }
    assert_eq!(queue.try_recv(), Some(0));
    assert_eq!(queue.try_recv(), Some(2));
    assert_eq!(queue.try_recv(), Some(1));
}

#[test]
fn block_backoff_doubles_up_to_its_limit() {
    let mut backoff = block::Backoff::default();
    let mut last = 0;
    for expected in [2, 4, 8, 16, 32, 64, 128, 256, 512, 1024, 1024] {
        assert_eq!(backoff.yield_now(linux()), Pause::Spin(expected));
        last = expected;
    }
    assert_eq!(last, backoff.0);
    assert_eq!(backoff.yield_now(arm_mac()), Pause::Yield);
}

#[test]
fn block_mpsc_keeps_the_order_over_many_blocks() {
    let mut queue = block_mpsc::Queue::empty();
    assert_eq!(queue.try_recv(), None::<u32>);
    for n in 0..300u32 {
        queue.send(n);
    }
    for n in 0..300u32 {
        assert_eq!(queue.try_recv(), Some(n));
    }
    assert_eq!(queue.try_recv(), None);
    assert_eq!(block_mpsc::BLOCK_SIZE, 64);
}

#[test]
fn block_mpsc_value_in_a_block_that_is_not_linked_yet_waits() {
    let mut queue = block_mpsc::Queue::empty();
    let mut first = block_mpsc::Send::new(1u32);
    while !matches!(first.stage, block_mpsc::Stage::Link { .. }) {
        first = queue.send_step(first);
    }
    queue.send(2);
    assert_eq!(recv_block_mpsc(&mut queue), None);
    first = queue.send_step(first);
    assert!(matches!(first.stage, block_mpsc::Stage::Done));
    assert_eq!(recv_block_mpsc(&mut queue), Some(1));
    assert_eq!(recv_block_mpsc(&mut queue), Some(2));
}

fn recv_block_mpsc(queue: &mut block_mpsc::Queue<u32>) -> Option<u32> {
    let mut recv = Recv::Head;
    loop {
        if let Recv::Done(value) = recv {
            return value;
        }
        recv = queue.recv_step(recv);
    }
}

#[test]
fn block_mpsc_send_that_lost_waits_longer_each_time() {
    let mut queue = block_mpsc::Queue::empty();
    queue.send(0u32);
    let mut loser = block_mpsc::Send::new(1u32);
    loser = queue.send_step(loser);
    queue.send(2);
    loser = queue.send_step(loser);
    assert!(matches!(loser.stage, block_mpsc::Stage::Load { lost: true, .. }));
    assert_eq!(loser.pause(linux()), Pause::Spin(2));
    assert_eq!(loser.pause(linux()), Pause::Spin(4));
    assert_eq!(loser.pause(arm_mac()), Pause::Event);
    for _ in 0..20 {
        loser.pause(linux());
    }
    assert_eq!(loser.pause(linux()), Pause::Spin(1024));
}

#[test]
fn loo_ish_keeps_the_order_over_many_blocks() {
    let mut queue = loo_ish::Queue::new();
    assert_eq!(queue.try_recv(), None::<u32>);
    for n in 0..150u32 {
        queue.send(n);
    }
    for n in 0..150u32 {
        assert_eq!(queue.try_recv(), Some(n));
    }
    assert_eq!(queue.try_recv(), None);
    assert_eq!(loo_ish::BLOCK_SIZE, 32);
}

#[test]
fn loo_ish_sends_that_overrun_a_block_share_the_next_one() {
    let mut queue = loo_ish::Queue::new();
    for n in 0..32u32 {
        queue.send(n);
    }
    // Both find the block full.
    let mut a = loo_ish::Queue::start(100u32);
    let mut b = loo_ish::Queue::start(200u32);
    a = queue.send_step(a, false);
    b = queue.send_step(b, false);
    assert!(matches!(a, loo_ish::Send::LoadNext { .. }));
    assert!(matches!(b, loo_ish::Send::LoadNext { .. }));
    while !matches!(b, loo_ish::Send::Done) {
        b = queue.send_step(b, false);
    }
    while !matches!(a, loo_ish::Send::Done) {
        a = queue.send_step(a, false);
    }
    for n in 0..32u32 {
        assert_eq!(queue.try_recv(), Some(n));
    }
    assert_eq!(queue.try_recv(), Some(200));
    assert_eq!(queue.try_recv(), Some(100));
    assert_eq!(queue.try_recv(), None);
}

#[test]
fn protty_keeps_the_order_over_two_blocks() {
    let mut queue = protty::Queue::empty();
    assert_eq!(queue.try_recv(), None::<u32>);
    for n in 0..1500u32 {
        queue.send(n);
    }
    for n in 0..1500u32 {
        assert_eq!(queue.try_recv(), Some(n));
    }
    assert_eq!(queue.try_recv(), None);
    assert_eq!(protty::MAX_SENDERS, 3071);
}

#[test]
fn protty_first_sends_race_for_the_first_block() {
    let mut queue = protty::Queue::empty();
    let mut a = protty::Queue::start(1u32);
    let mut b = protty::Queue::start(2u32);
    a = queue.send_step(a, false);
    b = queue.send_step(b, false);
    assert!(matches!(a, protty::Send::Allocate { .. }));
    a = queue.send_step(a, false);
    b = queue.send_step(b, false);
    while !matches!(b, protty::Send::Done) {
        b = queue.send_step(b, false);
    }
    while !matches!(a, protty::Send::Done) {
        a = queue.send_step(a, false);
    }
    assert_eq!(queue.try_recv(), Some(2));
    assert_eq!(queue.try_recv(), Some(1));
    assert_eq!(queue.try_recv(), None);
}

#[test]
fn ploo_keeps_the_order_over_three_blocks() {
    let mut queue = ploo_mpsc::Queue::empty();
    assert_eq!(queue.try_recv(), None::<u32>);
    for n in 0..2500u32 {
        queue.send(n);
    }
    for n in 0..2500u32 {
        assert_eq!(queue.try_recv(), Some(n));
    }
    assert_eq!(queue.try_recv(), None);
}

#[test]
fn ploo_frees_every_block_but_the_first_behind_the_consumer() {
    let mut queue = ploo_mpsc::Queue::empty();
    let mut heads = Vec::new();
    for n in 0..4000u32 {
        queue.send(n);
        assert_eq!(queue.try_recv(), Some(n));
        if heads.last() != Some(&queue.chain.head) {
            heads.push(queue.chain.head);
        }
    }
    assert_eq!(heads.len(), 4);
    // The second and the third block were counted down to zero by the last who left them.
    assert_eq!(queue.chain.follower(heads[0]), heads[1]);
    assert_eq!(queue.chain.follower(heads[3]), 0);
}

#[test]
fn ploo_send_that_finds_the_tail_moved_counts_itself_off() {
    let mut queue = ploo_mpsc::Queue::empty();
    // Beyond the first block, so that the count of the block begins at zero.
    for n in 0..2048u32 {
        queue.send(n);
    }
    let mut a = ploo_mpsc::Queue::start(5000u32);
    let mut b = ploo_mpsc::Queue::start(6000u32);
    a = queue.send_step(a, false);
    b = queue.send_step(b, false);
    assert!(matches!(a, ploo_mpsc::Send::Follow { .. }));
    while !matches!(b, ploo_mpsc::Send::Done) {
        b = queue.send_step(b, false);
    }
    let mut left = false;
    while !matches!(a, ploo_mpsc::Send::Done) {
        left = left || matches!(a, ploo_mpsc::Send::Leave { .. });
        a = queue.send_step(a, false);
    }
    assert!(left);
    for n in 0..2048u32 {
        assert_eq!(queue.try_recv(), Some(n));
    }
    assert_eq!(queue.try_recv(), Some(6000));
    assert_eq!(queue.try_recv(), Some(5000));
    assert_eq!(queue.try_recv(), None);
}

#[test]
fn ploo_weak_exchange_may_fail_and_is_repeated() {
    let mut queue = ploo_mpsc::Queue::empty();
    let mut a = ploo_mpsc::Queue::start(1u32);
    while !matches!(a, ploo_mpsc::Send::Exchange { .. }) {
        a = queue.send_step(a, false);
    }
    a = queue.send_step(a, true);
    assert!(matches!(a, ploo_mpsc::Send::Exchange { .. }));
    a = queue.send_step(a, false);
    assert!(matches!(a, ploo_mpsc::Send::PublishFirst { debt: 1, .. }));
    while !matches!(a, ploo_mpsc::Send::Done) {
        a = queue.send_step(a, false);
    }
    assert_eq!(queue.try_recv(), Some(1));
}

#[test]
fn ploo_counts_add_up() {
    let mut counts = ploo_mpsc::Counts::new();
    assert_eq!(counts.add(8, 1), 1);
    assert_eq!(counts.add(8, -3), -2);
    assert_eq!(counts.add(16, 5), 5);
    assert_eq!(counts.add(8, 2), 0);
}

#[test]
fn usync_unbounded_keeps_the_order() {
    let mut queue = usync_mpsc::unbounded::Queue::new();
    assert_eq!(queue.try_pop(), None::<u32>);
    for n in 0..100u32 {
        queue.push(n);
    }
    for n in 0..100u32 {
        assert_eq!(queue.try_pop(), Some(n));
    }
    assert_eq!(queue.try_pop(), None);
}

#[test]
fn usync_unbounded_push_steps_end_in_the_queue() {
    let mut queue = usync_mpsc::unbounded::Queue::new();
    let mut push = usync_mpsc::unbounded::Push::new(7u32);
    assert_eq!(push.pause(linux()), Pause::Nothing);
    while !matches!(push.push, eager::Push::Done) {
        push = queue.push_step(push);
    }
    let mut pop = Recv::Head;
    while !matches!(pop, Recv::Done(_)) {
        pop = queue.pop_step(pop);
    }
    assert!(matches!(pop, Recv::Done(Some(7))));
}

#[test]
fn values_left_in_a_queue_are_dropped_with_it() {
    let token = std::rc::Rc::new(());
    let mut queue = ploo_mpsc::Queue::empty();
    for _ in 0..10 {
        queue.send(token.clone());
    }
    assert!(queue.try_recv().is_some());
    assert_eq!(std::rc::Rc::strong_count(&token), 10);
    drop(queue);
    assert_eq!(std::rc::Rc::strong_count(&token), 1);
}

#[test]
fn loo_ish_send_that_moves_the_tail_forgets_a_block_that_it_did_not_need() {
    let mut queue = loo_ish::Queue::new();
    let mut a = loo_ish::Queue::start(1u32);
    let mut b = loo_ish::Queue::start(2u32);
    while !matches!(a, loo_ish::Send::Propose { .. }) {
        a = queue.send_step(a, false);
    }
    let mut unused: usize = 0;
    while unused == 0 {
        b = queue.send_step(b, false);
        if let loo_ish::Send::Propose { spare, .. } = &b {
            unused = *spare;
        }
    }
    a = queue.send_step(a, false);
    assert!(matches!(a, loo_ish::Send::LoadTail { spare: 0, .. }));
    b = queue.send_step(b, false);
    assert!(matches!(b, loo_ish::Send::LoadTail { spare, .. } if spare == unused));
    while !matches!(b, loo_ish::Send::Done) {
        b = queue.send_step(b, false);
    }
    while !matches!(a, loo_ish::Send::Done) {
        a = queue.send_step(a, false);
    }
    assert_eq!(queue.chain.heap.get(unused).slots.len(), 32);
    assert_eq!(queue.try_recv(), Some(2));
    assert_eq!(queue.try_recv(), Some(1));
    assert_eq!(queue.try_recv(), None);
}

#[test]
fn loo_ish_send_that_claims_a_slot_frees_a_block_that_it_did_not_need() {
    let mut queue = loo_ish::Queue::new();
    let mut a = loo_ish::Queue::start(1u32);
    let mut b = loo_ish::Queue::start(2u32);
    while !matches!(a, loo_ish::Send::Propose { .. }) {
        a = queue.send_step(a, false);
    }
    let mut unused: usize = 0;
    while unused == 0 {
        b = queue.send_step(b, false);
        if let loo_ish::Send::Propose { spare, .. } = &b {
            unused = *spare;
        }
    }
    while !matches!(a, loo_ish::Send::Done) {
        a = queue.send_step(a, false);
    }
    while !matches!(b, loo_ish::Send::Done) {
        b = queue.send_step(b, false);
    }
    for n in 2..32u32 {
        queue.send(n);
    }
    queue.send(32);
    assert_eq!(queue.chain.heap.get(unused).slots.len(), 32);
    assert!(queue.chain.heap.get(unused).slots[0].stored);
}

#[test]
fn ploo_send_that_finds_the_tail_moved_spins_once() {
    let mut queue = ploo_mpsc::Queue::empty();
    let mut late = ploo_mpsc::Queue::start(2u32);
    assert_eq!(late.pause(), Pause::Nothing);
    late = queue.send_step(late, false);
    assert!(matches!(late, ploo_mpsc::Send::Follow { home: 0, .. }));
    let mut first = ploo_mpsc::Queue::start(1u32);
    while !matches!(first, ploo_mpsc::Send::Done) {
        assert_eq!(first.pause(), Pause::Nothing);
        first = queue.send_step(first, false);
    }
    while !matches!(late, ploo_mpsc::Send::Bump { .. }) {
        assert_eq!(late.pause(), Pause::Nothing);
        late = queue.send_step(late, false);
    }
    assert!(matches!(late, ploo_mpsc::Send::Bump { lost: true, .. }));
    assert_eq!(late.pause(), Pause::Spin(1));
    while !matches!(late, ploo_mpsc::Send::Done) {
        late = queue.send_step(late, false);
    }
    assert_eq!(queue.try_recv(), Some(1));
    assert_eq!(queue.try_recv(), Some(2));
}

#[test]
fn values_left_in_a_protty_mpsc_queue_are_not_dropped() {
    let token = std::rc::Rc::new(());
    let mut queue = protty_mpsc::MpscQueue::new();
    for _ in 0..40 {
        queue.push(token.clone());
    }
    assert!(queue.pop().is_some());
    assert_eq!(std::rc::Rc::strong_count(&token), 40);
    drop(queue);
    assert_eq!(std::rc::Rc::strong_count(&token), 40);
}
