# jiffy

Queues and channels for many producers, written as step machines in Verus and verified.

An operation on a queue is a value that says which access to the shared memory comes next. A step
function (`push_step`, `send_step`, `recv_step`, ...) performs that one access and returns what comes
after it. Its contract is exact: it says what the access does to the memory and what the operation
does next. Any number of operations may be under way at the same time, and their steps may come in
any order; the accesses are taken to be sequentially consistent.

For each queue an invariant relates the memory to all the operations that are under way. Public
proof functions (`lemma_push`, `lemma_send`, `lemma_pop`, `lemma_recv`, ...) say that one access of
any operation keeps the invariant, whatever the others are doing, and what the access does to the
sequence of values that the queue holds. `lemma_start`, `lemma_finish` and `lemma_accepts` say when
an operation may begin, when it may be forgotten, and that its next access is always a safe one.
`history` carries this over to whole runs, in which the accesses of any number of sends and of one
receiver follow each other in any way: values come out once, in the order in which they went in,
those of each sender in the order in which it sent them, and none is lost. Heap addresses are given
out again once they are freed, so the laws hold whatever address an allocation returns. Where
threads sleep, further laws say that none sleeps beside what it waits for. Next to the steps
stand functions that run a whole operation while nothing else is under way (`push`, `send`,
`try_recv`, ...), with contracts over that sequence.

| Module | Contents |
| --- | --- |
| `arena`, `pause`, `shared` | heap cells with addresses, waiting policies, tagged pointers, parkers |
| `chain`, `eager` | a chain of heap blocks, and the queue that claims its slots by an exchange |
| `block`, `block_mpsc`, `loo_ish`, `ploo_mpsc`, `protty`, `protty_mpsc` | unbounded queues on chains |
| `history` | runs of accesses, and the laws that hold of every run |
| `ring`, `masked` | a ring of slots, and the queue that finds its slots by a mask |
| `basic`, `vyukov`, `idea` | bounded queues |
| `lock`, `wait_list`, `wait_queue` | a lock whose waiters sleep, and two places to wait in |
| `sharded_lock_mpsc` | an unbounded queue spread over locked deques |
| `lock_mpmc` | channels for many senders and many receivers behind one lock |
| `usync_mpsc` | a bounded, an unbounded and a rendezvous queue with parkers of their own |

Thread identities are numbers, and what depends on the machine comes in as a `pause::Platform`. A
policy answers with a `pause::Pause`, which the caller carries out. `app/` holds such a caller: it
keeps each queue behind a mutex, performs the steps, and puts threads to sleep and wakes them.
