//! Runs of many senders and one receiver, whose accesses follow each other in many ways, and
//! sequences of calls.
use jiffy::arena::Arena;
use jiffy::chain::Recv;
use jiffy::lock_mpmc::internal::Progress;
use jiffy::lock_mpmc::raw_mutex::WaitUntil;
use jiffy::lock_mpmc::{channel, sync_channel, RecvError, SendError, TryRecvError, TrySendError};
use jiffy::pause::{Pause, Platform};
use jiffy::usync_mpsc::rendezvous;
use jiffy::{basic, block, block_mpsc, loo_ish, protty, protty_mpsc, sharded_lock_mpsc};

fn linux() -> Platform {
    Platform {
        cpus: 8,
        x86: true,
        aarch64: false,
        windows: false,
        linux: true,
        android: false,
        apple: false,
    }
}

/// Whose turn it is, in an order that looks like chance.
struct Turns(u64);

impl Turns {
    fn next(&mut self, n: usize) -> usize {
        self.0 = self.0.wrapping_mul(6364136223846793005).wrapping_add(1442695040888963407);
        (self.0 >> 33) as usize % n
    }
}

const SENDERS: usize = 4;

const EACH: u32 = 300;

/// Every value was received once, those of each sender in the order in which it sent them.
fn check(received: &[u32]) {
    assert_eq!(received.len(), SENDERS * EACH as usize);
    for sender in 0..SENDERS as u32 {
        let own: Vec<u32> = received.iter().copied().filter(|n| n / 1000 == sender).collect();
        let sent: Vec<u32> = (0..EACH).map(|n| sender * 1000 + n).collect();
        assert_eq!(own, sent);
    }
}

#[test]
fn arena_gives_the_address_of_a_freed_cell_out_again() {
    let mut arena: Arena<u32, 8> = Arena::new();
    assert!(!arena.is_full());
    let a = arena.allocate(1);
    let b = arena.allocate(2);
    assert!(a != b && a != 0 && b != 0 && a % 8 == 0 && b % 8 == 0);
    assert_eq!(arena.free(a), 1);
    let c = arena.allocate(3);
    assert_eq!(c, a);
    assert_eq!(*arena.get(b), 2);
    assert_eq!(*arena.get(c), 3);
}

#[test]
fn arena_keeps_the_address_of_a_cell_that_is_lent() {
    let mut arena: Arena<u32, 2> = Arena::new();
    let a = arena.allocate(1);
    let cell = arena.lend(a);
    arena.put(a, cell + 10);
    assert_eq!(*arena.get(a), 11);
    let b = arena.allocate(2);
    assert!(a != b);
    assert_eq!(arena.lend(a), 11);
    arena.release(a);
    assert_eq!(arena.allocate(3), a);
}

#[test]
fn block_run_delivers_everything_in_order() {
    for seed in 0..8 {
        let mut turns = Turns(seed);
        let mut queue = block::Queue::empty();
        let mut ops: Vec<Option<block::Send<u32>>> = (0..SENDERS).map(|_| None).collect();
        let mut sent = [0u32; SENDERS];
        let mut received = Vec::new();
        let mut recv = Recv::Head;
        while received.len() < SENDERS * EACH as usize {
            let i = turns.next(SENDERS + 1);
            if i == SENDERS {
                recv = match queue.recv_step(recv) {
                    Recv::Done(value) => {
                        received.extend(value);
                        Recv::Head
                    },
                    recv => recv,
                };
            } else if let Some(op) = ops[i].take() {
                let next = queue.send_step(op, turns.next(8) == 0);
                if !matches!(next.push, jiffy::eager::Push::Done) {
                    ops[i] = Some(next);
                }
            } else if sent[i] < EACH {
                ops[i] = Some(block::Send::new(i as u32 * 1000 + sent[i]));
                sent[i] += 1;
            }
        }
        check(&received);
    }
}

#[test]
fn block_mpsc_run_delivers_everything_in_order() {
    for seed in 0..8 {
        let mut turns = Turns(seed);
        let mut queue = block_mpsc::Queue::empty();
        let mut ops: Vec<Option<block_mpsc::Send<u32>>> = (0..SENDERS).map(|_| None).collect();
        let mut sent = [0u32; SENDERS];
        let mut received = Vec::new();
        let mut recv = Recv::Head;
        while received.len() < SENDERS * EACH as usize {
            let i = turns.next(SENDERS + 1);
            if i == SENDERS {
                recv = match queue.recv_step(recv) {
                    Recv::Done(value) => {
                        received.extend(value);
                        Recv::Head
                    },
                    recv => recv,
                };
            } else if let Some(op) = ops[i].take() {
                let next = queue.send_step(op);
                if !matches!(next.stage, block_mpsc::Stage::Done) {
                    ops[i] = Some(next);
                }
            } else if sent[i] < EACH {
                ops[i] = Some(block_mpsc::Send::new(i as u32 * 1000 + sent[i]));
                sent[i] += 1;
            }
        }
        check(&received);
    }
}

#[test]
fn loo_ish_run_delivers_everything_in_order() {
    for seed in 0..8 {
        let mut turns = Turns(seed);
        let mut queue = loo_ish::Queue::new();
        let mut ops: Vec<Option<loo_ish::Send<u32>>> = (0..SENDERS).map(|_| None).collect();
        let mut sent = [0u32; SENDERS];
        let mut received = Vec::new();
        let mut recv = Recv::Head;
        while received.len() < SENDERS * EACH as usize {
            let i = turns.next(SENDERS + 1);
            if i == SENDERS {
                recv = match queue.recv_step(recv) {
                    Recv::Done(value) => {
                        received.extend(value);
                        Recv::Head
                    },
                    recv => recv,
                };
            } else if let Some(op) = ops[i].take() {
                let next = queue.send_step(op, turns.next(8) == 0);
                if !matches!(next, loo_ish::Send::Done) {
                    ops[i] = Some(next);
                }
            } else if sent[i] < EACH {
                ops[i] = Some(loo_ish::Queue::start(i as u32 * 1000 + sent[i]));
                sent[i] += 1;
            }
        }
        check(&received);
    }
}

#[test]
fn protty_mpsc_run_delivers_everything_in_order() {
    for seed in 0..8 {
        let mut turns = Turns(seed);
        let mut queue = protty_mpsc::MpscQueue::new();
        let mut ops: Vec<Option<protty_mpsc::Push<u32>>> = (0..SENDERS).map(|_| None).collect();
        let mut sent = [0u32; SENDERS];
        let mut received = Vec::new();
        let mut recv = Recv::Head;
        while received.len() < SENDERS * EACH as usize {
            let i = turns.next(SENDERS + 1);
            if i == SENDERS {
                recv = match queue.pop_step(recv) {
                    Recv::Done(value) => {
                        received.extend(value);
                        Recv::Head
                    },
                    recv => recv,
                };
            } else if let Some(op) = ops[i].take() {
                let (spurious, again) = (turns.next(8) == 0, turns.next(2) == 0);
                let next = queue.push_step(op, i, spurious, again);
                if !matches!(next.stage, protty_mpsc::Stage::Done) {
                    ops[i] = Some(next);
                }
            } else if sent[i] < EACH {
                ops[i] = Some(protty_mpsc::Push::new(i as u32 * 1000 + sent[i]));
                sent[i] += 1;
            }
        }
        check(&received);
    }
}

#[test]
fn protty_send_gets_the_address_of_the_block_that_it_overran() {
    let mut queue = protty::Queue::empty();
    for n in 0..1024u32 {
        queue.send(n);
    }
    let first = queue.chain.head;
    let mut slow = protty::Queue::start(2000);
    slow = queue.send_step(slow, false);
    assert!(matches!(slow, protty::Send::Allocate { .. }));
    queue.send(1024);
    for n in 0..1025u32 {
        assert_eq!(queue.try_recv(), Some(n));
    }
    assert!(queue.chain.head != first);
    slow = queue.send_step(slow, false);
    assert!(matches!(slow, protty::Send::Exchange { spare, .. } if spare == first));
    // The tail that it saw points to what is now its own block.
    slow = queue.send_step(slow, false);
    assert!(matches!(slow, protty::Send::Bump { spare, .. } if spare == first));
    while !matches!(slow, protty::Send::Done) {
        slow = queue.send_step(slow, false);
    }
    assert_eq!(queue.try_recv(), Some(2000));
    assert_eq!(queue.try_recv(), None);
}

#[test]
fn basic_pops_are_the_first_of_the_accepted_pushes() {
    let mut queue = basic::Queue::new(3);
    let mut accepted = Vec::new();
    let mut popped = Vec::new();
    for n in 0..20u32 {
        if queue.push(n).is_ok() {
            accepted.push(n);
        }
        if n % 3 != 0 {
            popped.extend(queue.pop());
        }
        assert!(accepted.starts_with(&popped));
    }
    while let Some(value) = queue.pop() {
        popped.push(value);
    }
    assert_eq!(popped, accepted);
}

#[test]
fn sharded_pops_are_a_permutation_of_the_pushes() {
    let mut queue = sharded_lock_mpsc::MpscQueue::new(3);
    let mut popped = Vec::new();
    for n in 0..10u32 {
        queue.push(n);
        if n == 4 {
            popped.extend(queue.pop());
        }
    }
    while let Some(value) = queue.pop() {
        popped.push(value);
    }
    for shard in 0..3 {
        let own: Vec<u32> = popped.iter().copied().filter(|n| n % 3 == shard).collect();
        let mut sorted = own.clone();
        sorted.sort();
        assert_eq!(own, sorted);
    }
    popped.sort();
    assert_eq!(popped, (0..10).collect::<Vec<u32>>());
}

#[test]
fn sharded_pops_empty_one_deque_after_the_other() {
    let mut queue = sharded_lock_mpsc::MpscQueue::new(2);
    for n in 0..4u32 {
        queue.push(n);
    }
    for n in [0, 2, 1, 3] {
        assert_eq!(queue.pop(), Some(n));
    }
    assert_eq!(queue.pop(), None);
}

#[test]
fn channel_keeps_the_order_over_its_clones() {
    let (mut chan, sender, receiver) = channel();
    let senders = [sender.clone(&mut chan), sender.clone(&mut chan), sender];
    let receivers = [receiver.clone(&mut chan), receiver];
    for n in 0..9u32 {
        let sent = senders[n as usize % 3].send(&mut chan, n);
        assert!(matches!(sent, Progress::Ready(Ok(()))));
    }
    for n in 0..9u32 {
        assert_eq!(receivers[n as usize % 2].try_recv(&mut chan), Ok(n));
    }
}

#[test]
fn operations_that_may_wait_do_what_the_others_do() {
    let (mut chan, sender, receiver) = sync_channel(2);
    assert_eq!(sender.try_send(&mut chan, 1u32), Ok(()));
    assert!(matches!(sender.send(&mut chan, 2), Progress::Ready(Ok(()))));
    assert_eq!(sender.try_send(&mut chan, 3), Err(TrySendError::Full(3)));
    assert_eq!(receiver.try_recv(&mut chan), Ok(1));
    assert!(matches!(receiver.recv(&mut chan), Progress::Ready(Ok(2))));
    assert_eq!(receiver.try_recv(&mut chan), Err(TryRecvError::Empty));
    assert!(matches!(receiver.recv(&mut chan), Progress::Waiting(_)));
}

#[test]
fn ticket_of_an_answer_that_was_fetched_is_given_out_again() {
    let (mut chan, sender, receiver) = channel();
    let first = match receiver.recv(&mut chan) {
        Progress::Waiting(ticket) => ticket,
        Progress::Ready(_) => panic!("there is no value"),
    };
    assert!(matches!(sender.send(&mut chan, 7u32), Progress::Ready(Ok(()))));
    assert_eq!(receiver.poll(&mut chan, first), Some(Ok(7)));
    assert!(matches!(receiver.recv(&mut chan), Progress::Waiting(ticket) if ticket == first));
    assert_eq!(receiver.poll(&mut chan, first), None);
}

#[test]
fn ends_that_have_gone_stay_gone() {
    let (mut chan, sender, receiver) = sync_channel(2);
    let other = sender.clone(&mut chan);
    receiver.drop(&mut chan);
    for n in 0..3u32 {
        assert_eq!(sender.try_send(&mut chan, n), Err(TrySendError::Disconnected(n)));
        assert!(matches!(other.send(&mut chan, n), Progress::Ready(Err(SendError(v))) if v == n));
    }
    let (mut chan, sender, receiver) = channel::<u32>();
    sender.drop(&mut chan);
    for _ in 0..3 {
        assert_eq!(receiver.try_recv(&mut chan), Err(TryRecvError::Disconnected));
        assert!(matches!(receiver.recv(&mut chan), Progress::Ready(Err(RecvError))));
    }
}

#[test]
fn rendezvous_answers_after_the_consumer_has_gone() {
    let mut queue = rendezvous::Queue::<u32>::new();
    queue.disconnect(false);
    assert_eq!(queue.try_pop(), Err(()));
    assert_eq!(queue.try_push(1), Err(Err(1)));
    queue.disconnect(false);
    queue.disconnect(true);
    assert_eq!(queue.try_pop(), Err(()));
    let mut pop = queue.pop();
    while !matches!(pop, rendezvous::Pop::Done(_)) {
        pop = queue.pop_step(pop, 1, linux());
    }
    assert!(matches!(pop, rendezvous::Pop::Done(Err(()))));
}

#[test]
fn waiting_for_a_flag_counts_only_where_that_matters() {
    let mut wait = WaitUntil { spins: i32::MAX };
    assert_eq!(wait.pause(linux()), Pause::Yield);
    assert_eq!(wait.spins, i32::MAX);
    let mut wait = WaitUntil { spins: 15 };
    let windows = Platform { windows: true, linux: false, ..linux() };
    assert_eq!(wait.pause(windows), Pause::Sleep(1));
    assert_eq!(wait.pause(windows), Pause::Sleep(10));
    assert_eq!(wait.spins, 17);
}
