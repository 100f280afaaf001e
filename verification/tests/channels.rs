//! The locked channels: order, limits, waiting, and ends that go.
use jiffy::lock_mpmc::internal::{self, Progress};
use jiffy::lock_mpmc::raw_mutex::{Locking, RawMutex, WaitUntil};
use jiffy::lock_mpmc::{channel, sync_channel, RecvError, SendError, TryRecvError, TrySendError};
use jiffy::pause::{Pause, Platform};

fn linux() -> Platform {
    Platform {
        cpus: 8,
        x86: true,
        aarch64: false,
        windows: false,
        linux: true,
        android: false,
        apple: false,
    }
}

#[test]
fn unbounded_channel_delivers_in_order() {
    let (mut chan, sender, receiver) = channel();
    assert_eq!(receiver.try_recv(&mut chan), Err(TryRecvError::Empty));
    for n in 0..5u32 {
        assert!(matches!(sender.send(&mut chan, n), Progress::Ready(Ok(()))));
    }
    for n in 0..5u32 {
        assert_eq!(receiver.try_recv(&mut chan), Ok(n));
    }
    assert_eq!(receiver.try_recv(&mut chan), Err(TryRecvError::Empty));
}

#[test]
fn bounded_channel_refuses_when_full() {
    let (mut chan, sender, receiver) = sync_channel(2);
    assert_eq!(sender.try_send(&mut chan, 1u32), Ok(()));
    assert_eq!(sender.try_send(&mut chan, 2), Ok(()));
    assert_eq!(sender.try_send(&mut chan, 3), Err(TrySendError::Full(3)));
    assert_eq!(receiver.try_recv(&mut chan), Ok(1));
    assert_eq!(sender.try_send(&mut chan, 3), Ok(()));
    assert_eq!(receiver.try_recv(&mut chan), Ok(2));
    assert_eq!(receiver.try_recv(&mut chan), Ok(3));
}

#[test]
fn send_that_waits_is_served_by_a_receive() {
    let (mut chan, sender, receiver) = sync_channel(1);
    assert!(matches!(sender.send(&mut chan, 1u32), Progress::Ready(Ok(()))));
    let ticket = match sender.send(&mut chan, 2) {
        Progress::Waiting(ticket) => ticket,
        Progress::Ready(_) => panic!("there is no room"),
    };
    assert_eq!(sender.poll(&mut chan, ticket), None);
    // A send that waits hands its value over before the buffer is used.
    assert_eq!(receiver.try_recv(&mut chan), Ok(2));
    assert_eq!(sender.poll(&mut chan, ticket), Some(Ok(())));
    assert_eq!(receiver.try_recv(&mut chan), Ok(1));
    assert_eq!(receiver.try_recv(&mut chan), Err(TryRecvError::Empty));
}

#[test]
fn receive_that_waits_is_served_by_a_send() {
    let (mut chan, sender, receiver) = channel();
    let first = match receiver.recv(&mut chan) {
        Progress::Waiting(ticket) => ticket,
        Progress::Ready(_) => panic!("there is no value"),
    };
    let second = match receiver.recv(&mut chan) {
        Progress::Waiting(ticket) => ticket,
        Progress::Ready(_) => panic!("there is no value"),
    };
    assert!(first != second);
    assert_eq!(receiver.poll(&mut chan, first), None);
    assert!(matches!(sender.send(&mut chan, 7u32), Progress::Ready(Ok(()))));
    assert_eq!(receiver.poll(&mut chan, second), None);
    assert_eq!(receiver.poll(&mut chan, first), Some(Ok(7)));
    assert!(matches!(sender.send(&mut chan, 8), Progress::Ready(Ok(()))));
    assert_eq!(receiver.poll(&mut chan, second), Some(Ok(8)));
}

#[test]
fn channel_without_room_hands_over_directly() {
    let (mut chan, sender, receiver) = sync_channel(0);
    assert_eq!(sender.try_send(&mut chan, 1u32), Err(TrySendError::Full(1)));
    let ticket = match receiver.recv(&mut chan) {
        Progress::Waiting(ticket) => ticket,
        Progress::Ready(_) => panic!("there is no value"),
    };
    assert_eq!(sender.try_send(&mut chan, 1), Ok(()));
    assert_eq!(receiver.poll(&mut chan, ticket), Some(Ok(1)));
}

#[test]
fn sends_are_refused_once_the_receivers_have_gone() {
    let (mut chan, sender, receiver) = sync_channel(1);
    assert_eq!(sender.try_send(&mut chan, 1u32), Ok(()));
    let ticket = match sender.send(&mut chan, 2) {
        Progress::Waiting(ticket) => ticket,
        Progress::Ready(_) => panic!("there is no room"),
    };
    receiver.drop(&mut chan);
    assert_eq!(sender.poll(&mut chan, ticket), Some(Err(SendError(2))));
    assert_eq!(sender.try_send(&mut chan, 3), Err(TrySendError::Disconnected(3)));
    assert!(matches!(sender.send(&mut chan, 4), Progress::Ready(Err(SendError(4)))));
}

#[test]
fn receives_end_once_the_senders_have_gone_and_the_buffer_is_empty() {
    let (mut chan, sender, receiver) = channel();
    assert!(matches!(sender.send(&mut chan, 1u32), Progress::Ready(Ok(()))));
    sender.drop(&mut chan);
    assert!(matches!(receiver.recv(&mut chan), Progress::Ready(Ok(1))));
    assert_eq!(receiver.try_recv(&mut chan), Err(TryRecvError::Disconnected));
    assert!(matches!(receiver.recv(&mut chan), Progress::Ready(Err(RecvError))));
}

#[test]
fn receive_that_waits_ends_when_the_last_sender_goes() {
    let (mut chan, sender, receiver) = channel::<u32>();
    let other = sender.clone(&mut chan);
    assert_eq!(chan.senders, 2);
    let ticket = match receiver.recv(&mut chan) {
        Progress::Waiting(ticket) => ticket,
        Progress::Ready(_) => panic!("there is no value"),
    };
    sender.drop(&mut chan);
    assert_eq!(receiver.poll(&mut chan, ticket), None);
    other.drop(&mut chan);
    assert_eq!(receiver.poll(&mut chan, ticket), Some(Err(RecvError)));
}

#[test]
fn receivers_and_sync_senders_are_counted() {
    let (mut chan, sender, receiver) = sync_channel::<u32>(1);
    let other = receiver.clone(&mut chan);
    assert_eq!(chan.receivers, 2);
    receiver.drop(&mut chan);
    assert_eq!(sender.try_send(&mut chan, 1), Ok(()));
    let twin = sender.clone(&mut chan);
    assert_eq!(chan.senders, 2);
    twin.drop(&mut chan);
    other.drop(&mut chan);
    assert_eq!(chan.receivers, 0);
    assert_eq!(sender.try_send(&mut chan, 2), Err(TrySendError::Disconnected(2)));
    sender.drop(&mut chan);
    assert_eq!(chan.senders, 0);
}

#[test]
fn internal_operations_tell_full_from_disconnected() {
    let mut chan = internal::channel(Some(1));
    assert!(matches!(internal::send(&mut chan, 1u32, false), Progress::Ready(Ok(()))));
    assert!(matches!(internal::send(&mut chan, 2, false), Progress::Ready(Err(Ok(2)))));
    assert!(matches!(internal::recv(&mut chan, false), Progress::Ready(Ok(1))));
    assert!(matches!(internal::recv(&mut chan, false), Progress::Ready(Err(Ok(())))));
    internal::clone(&mut chan, true);
    internal::clone(&mut chan, false);
    internal::disconnect(&mut chan, true);
    internal::disconnect(&mut chan, true);
    assert!(matches!(internal::recv(&mut chan, true), Progress::Ready(Err(Err(())))));
    internal::disconnect(&mut chan, false);
    internal::disconnect(&mut chan, false);
    assert!(matches!(internal::send(&mut chan, 3, true), Progress::Ready(Err(Err(3)))));
}

#[test]
fn only_one_of_two_gets_the_mutex() {
    let mut mutex = RawMutex::new();
    let a = mutex.lock_step(Locking::Try);
    assert!(matches!(a, Locking::Held));
    let b = mutex.lock_step(Locking::Try);
    assert!(matches!(b, Locking::Wait));
    let b = mutex.lock_step(b);
    assert!(matches!(b, Locking::Wait));
    mutex.unlock();
    let b = mutex.lock_step(b);
    assert!(matches!(b, Locking::Try));
    let b = mutex.lock_step(b);
    assert!(matches!(b, Locking::Held));
    assert!(!mutex.try_lock());
    mutex.unlock();
    mutex.lock();
    assert!(mutex.locked);
}

#[test]
fn waiting_for_a_flag_depends_on_the_system() {
    let mut wait = WaitUntil::new(linux());
    assert_eq!(wait.pause(linux()), Pause::Yield);
    assert_eq!(wait.pause(linux()), Pause::Yield);

    let windows = Platform { windows: true, linux: false, ..linux() };
    let mut wait = WaitUntil::new(windows);
    for _ in 0..10 {
        assert_eq!(wait.pause(windows), Pause::Spin(1));
    }
    let rest = [
        Pause::Yield,
        Pause::Yield,
        Pause::Sleep(0),
        Pause::Sleep(0),
        Pause::Sleep(1),
        Pause::Sleep(1),
        Pause::Sleep(10),
        Pause::Sleep(10),
    ];
    for expected in rest {
        assert_eq!(wait.pause(windows), expected);
    }

    let mac = Platform { x86: false, aarch64: true, linux: false, apple: true, ..linux() };
    let mut wait = WaitUntil::new(mac);
    assert_eq!(wait.spins, -10);
    for _ in 0..10 {
        assert_eq!(wait.pause(mac), Pause::Event);
    }
    assert_eq!(wait.pause(mac), Pause::Depress(0));
    assert_eq!(wait.pause(mac), Pause::Depress(1));

    let old_mac = Platform { linux: false, apple: true, ..linux() };
    let mut wait = WaitUntil::new(old_mac);
    assert_eq!(wait.spins, -1024);
    assert_eq!(wait.pause(old_mac), Pause::Spin(1));
}
