//! Tagged pointers, and how a thread backs off.
use crate::pause::{power_of_two, Pause, Platform};
use vstd::arithmetic::power2::pow2;
use vstd::prelude::*;

verus! {

/// Work on the address of a pointer without losing what it points to.
pub trait StrictProvenance: Sized {
    /// The address of the pointer.
    spec fn address(self) -> usize;

    /// Returns the address.
    fn addr(self) -> (addr: usize)
        ensures
            addr == self.address(),
    ;

    /// The pointer with another address.
    fn with_addr(self, addr: usize) -> (pointer: Self)
        ensures
            pointer.address() == addr,
    ;

    /// The pointer with its address changed by `f`.
    fn map_addr<F: FnOnce(usize) -> usize>(self, f: F) -> (pointer: Self)
        requires
            call_requires(f, (self.address(),)),
        ensures
            call_ensures(f, (self.address(),), pointer.address()),
    ;
}

/// A pointer to a cell of an arena whose low bits may carry a tag. The address zero points to
/// nothing.
#[derive(Clone, Copy, Debug, PartialEq, Eq, Structural)]
pub struct Pointer {
    pub addr: usize,
}

impl StrictProvenance for Pointer {
    open spec fn address(self) -> usize {
        self.addr
    }

    fn addr(self) -> (addr: usize) {
        self.addr
    }

    fn with_addr(self, addr: usize) -> (pointer: Self) {
        Pointer { addr }
    }

    fn map_addr<F: FnOnce(usize) -> usize>(self, f: F) -> (pointer: Self) {
        let addr: usize = self.addr();
        self.with_addr(f(addr))
    }
}

/// The alignments that leave room for the tags in use.
pub open spec fn is_alignment(align: usize) -> bool {
    align == 2 || align == 4 || align == 32 || align == 128 || align == 1024 || align == 4096
}

/// Masking with an alignment is taking a quotient and a remainder.
proof fn lemma_masks(addr: usize, tag: usize, align: usize)
    requires
        is_alignment(align),
    ensures
        addr & (align - 1) as usize == addr % align,
        addr & !((align - 1) as usize) == addr - addr % align,
        addr % align == 0 && tag < align ==> addr | tag == addr + tag,
{
    let mask = (align - 1) as usize;
    assert((addr & mask) + (addr & !mask) == addr) by (bit_vector);
    if align == 2 {
        assert(addr & 1 == addr % 2) by (bit_vector);
        assert(addr & 1 <= addr && addr & !1 == addr - (addr & 1)) by (bit_vector);
        assert(addr & 1 == 0 && tag < 2 ==> addr | tag == addr + tag) by (bit_vector);
    } else if align == 4 {
        assert(addr & 3 == addr % 4) by (bit_vector);
        assert(addr & 3 <= addr && addr & !3 == addr - (addr & 3)) by (bit_vector);
        assert(addr & 3 == 0 && tag < 4 ==> addr | tag == addr + tag) by (bit_vector);
    } else if align == 32 {
        assert(addr & 31 == addr % 32) by (bit_vector);
        assert(addr & 31 <= addr && addr & !31 == addr - (addr & 31)) by (bit_vector);
        assert(addr & 31 == 0 && tag < 32 ==> addr | tag == addr + tag) by (bit_vector);
    } else if align == 128 {
        assert(addr & 127 == addr % 128) by (bit_vector);
        assert(addr & 127 <= addr && addr & !127 == addr - (addr & 127)) by (bit_vector);
        assert(addr & 127 == 0 && tag < 128 ==> addr | tag == addr + tag) by (bit_vector);
    } else if align == 1024 {
        assert(addr & 1023 == addr % 1024) by (bit_vector);
        assert(addr & 1023 <= addr && addr & !1023 == addr - (addr & 1023)) by (bit_vector);
        assert(addr & 1023 == 0 && tag < 1024 ==> addr | tag == addr + tag) by (bit_vector);
    } else if align == 4096 {
        assert(addr & 4095 == addr % 4096) by (bit_vector);
        assert(addr & 4095 <= addr && addr & !4095 == addr - (addr & 4095)) by (bit_vector);
        assert(addr & 4095 == 0 && tag < 4096 ==> addr | tag == addr + tag) by (bit_vector);
    }
}

impl Pointer {
    /// The cell that a pointer with this tagged address points to.
    pub open spec fn cell(self, align: usize) -> int {
        self.addr - self.addr % align
    }

    /// The address without the tag.
    pub fn untagged(self, align: usize) -> (addr: usize)
        requires
            is_alignment(align),
        ensures
            addr == self.cell(align),
            addr % align == 0,
    {
        let mask: usize = align - 1;
        proof {
            lemma_masks(self.addr, 0, align);
            vstd::arithmetic::div_mod::lemma_fundamental_div_mod(self.addr as int, align as int);
            vstd::arithmetic::div_mod::lemma_mod_multiples_basic(
                self.addr as int / align as int,
                align as int,
            );
            assert(align * (self.addr as int / align as int) == (self.addr as int / align as int)
                * align) by (nonlinear_arith);
        }
        let untag = |addr: usize| -> (masked: usize)
            ensures
                masked == addr & !mask,
        {
            addr & !mask
        };
        self.map_addr(untag).addr()
    }

    /// The tag.
    pub fn tag(self, align: usize) -> (tag: usize)
        requires
            is_alignment(align),
        ensures
            tag == self.addr % align,
            tag < align,
    {
        proof {
            lemma_masks(self.addr, 0, align);
        }
        self.addr() & (align - 1)
    }

    /// The pointer to the cell at `addr` with a tag.
    pub fn tagged(addr: usize, tag: usize, align: usize) -> (pointer: Self)
        requires
            is_alignment(align),
            addr % align == 0,
            tag < align,
        ensures
            pointer.addr == addr + tag,
            pointer.cell(align) == addr,
            pointer.addr % align == tag,
    {
        proof {
            lemma_masks(addr, tag, align);
            vstd::arithmetic::div_mod::lemma_add_mod_noop(addr as int, tag as int, align as int);
            vstd::arithmetic::div_mod::lemma_small_mod(tag as nat, align as nat);
        }
        let put = |addr: usize| -> (tagged: usize)
            ensures
                tagged == addr | tag,
        {
            addr | tag
        };
        Pointer { addr }.map_addr(put)
    }
}

/// How often an attempt was repeated.
#[derive(Clone, Copy, Debug)]
pub struct Backoff {
    pub counter: usize,
}

impl Default for Backoff {
    fn default() -> (backoff: Self)
        ensures
            backoff.counter == 0,
    {
        Backoff { counter: 0 }
    }
}

impl Backoff {
    /// Spins once and returns true, but at most 32 times, and only where spinning is cheap.
    pub fn try_yield_now(&mut self, platform: Platform) -> (spun: bool)
        ensures
            spun == (platform.x86 && old(self).counter < 32),
            final(self).counter == old(self).counter + if spun {
                1int
            } else {
                0
            },
    {
        let max_spin: usize = if platform.x86 {
            32
        } else {
            0
        };
        if self.counter < max_spin {
            self.counter = self.counter + 1;
            std::hint::spin_loop();
            true
        } else {
            false
        }
    }

    /// How the thread waits after the attempts counted so far: it spins ever longer at first and
    /// then gives its time slice away. On Windows it goes on spinning, which is better there
    /// than yielding.
    pub fn yield_now(&mut self, platform: Platform) -> (pause: Pause)
        ensures
            final(self).counter == if platform.x86 {
                old(self).counter.wrapping_add(1)
            } else {
                old(self).counter
            },
            pause == if platform.x86 && final(self).counter <= 3 {
                Pause::Spin(pow2(final(self).counter as nat) as usize)
            } else if platform.x86 && platform.windows {
                Pause::Spin(
                    pow2(
                        if final(self).counter < 10 {
                            final(self).counter as nat
                        } else {
                            10
                        },
                    ) as usize,
                )
            } else {
                Pause::Yield
            },
    {
        if platform.x86 {
            self.counter = self.counter.wrapping_add(1);
            if self.counter <= 3 {
                return Pause::Spin(power_of_two(self.counter));
            }
            if platform.windows {
                let exponent: usize = if self.counter < 10 {
                    self.counter
                } else {
                    10
                };
                return Pause::Spin(power_of_two(exponent));
            }
        }
        Pause::Yield
    }
}

/// A place where a thread sleeps until it is woken.
pub struct Parker {
    pub thread: Option<usize>,
    pub is_unparked: bool,
}

impl Parker {
    /// A place for `thread` to sleep.
    pub fn new(thread: usize) -> (parker: Self)
        ensures
            parker == (Parker { thread: Some(thread), is_unparked: false }),
    {
        Parker { thread: Some(thread), is_unparked: false }
    }

    /// Whether the thread may go on. Until then it sleeps and asks again.
    pub fn park(&self) -> (go: bool)
        ensures
            go == self.is_unparked,
    {
        self.is_unparked
    }

    /// Lets the thread go on, and returns the thread that is to be woken.
    pub fn unpark(&mut self) -> (thread: usize)
        requires
            old(self).thread is Some,
        ensures
            thread == old(self).thread->0,
            *final(self) == (Parker { thread: None, is_unparked: true }),
    {
        let thread: usize = self.thread.take().unwrap();
        self.is_unparked = true;
        thread
    }
}

/// What a waiter's word says.
#[derive(Clone, Copy, PartialEq, Eq, Structural, Debug)]
pub enum Word {
    /// Nothing has happened yet.
    Empty,
    /// The thread sleeps in the waiter's place.
    Parked,
    /// The thread was told to go on.
    Notified,
}

/// A thread that waits to be told to go on. Waiters form lists through `next`.
pub struct Waiter {
    pub next: Option<usize>,
    pub parker: Word,
    pub place: Parker,
}

/// The part of a park that comes next.
pub enum Park {
    /// Load the word.
    Load,
    /// Exchange an empty word for one that says that the thread sleeps.
    Exchange,
    /// Sleep until the place says that the thread may go on.
    Wait,
    /// Load the word again.
    Reload,
    /// The thread was told to go on: empty the word.
    Reset,
    /// The park is over.
    Done,
}

/// The part of an unpark that comes next.
pub enum Unpark {
    /// Swap the word for one that says that the thread was told to go on.
    Swap,
    /// Let the thread that sleeps go on.
    Release,
    /// Wake the thread.
    Wake(usize),
    /// The unpark is over.
    Done,
}

impl Park {
    /// How many accesses are left at most once the unpark is over.
    pub open spec fn rank(self) -> nat {
        match self {
            Park::Load => 5,
            Park::Exchange => 4,
            Park::Wait => 3,
            Park::Reload => 2,
            Park::Reset => 1,
            Park::Done => 0,
        }
    }
}

impl Waiter {
    /// A waiter that nothing has happened to.
    pub fn new() -> (waiter: Self)
        ensures
            waiter.next is None,
            waiter.parker == Word::Empty,
            waiter.place == (Parker { thread: None, is_unparked: false }),
    {
        Waiter {
            next: None,
            parker: Word::Empty,
            place: Parker { thread: None, is_unparked: false },
        }
    }

    /// The next access of the park finds what it has to find: no other thread sleeps there, and a
    /// thread that goes on was told to.
    pub open spec fn parks(self, op: Park) -> bool {
        match op {
            Park::Exchange => self.parker != Word::Parked,
            Park::Reload => self.parker == Word::Notified,
            _ => true,
        }
    }

    /// The next access of the unpark finds what it has to find: the thread was not told before,
    /// and a thread that sleeps can be woken.
    pub open spec fn unparks(self, op: Unpark) -> bool {
        match op {
            Unpark::Swap => self.parker != Word::Notified,
            Unpark::Release => self.place.thread is Some,
            _ => true,
        }
    }

    /// One access of a park by `thread`, which may want to look `again` before it goes to sleep.
    pub open spec fn park_next(
        self,
        op: Park,
        thread: usize,
        again: bool,
        post: Self,
        next: Park,
    ) -> bool {
        match op {
            Park::Load => post == self && next == if self.parker == Word::Notified {
                Park::Reset
            } else if again {
                Park::Load
            } else {
                Park::Exchange
            },
            Park::Exchange => if self.parker == Word::Empty {
                &&& post == Waiter {
                    parker: Word::Parked,
                    place: Parker { thread: Some(thread), is_unparked: false },
                    ..self
                }
                &&& next == Park::Wait
            } else {
                post == self && next == Park::Reset
            },
            Park::Wait => post == self && next == if self.place.is_unparked {
                Park::Reload
            } else {
                Park::Wait
            },
            Park::Reload => post == self && next == Park::Reset,
            Park::Reset => post == Waiter { parker: Word::Empty, ..self } && next == Park::Done,
            Park::Done => post == self && next == op,
        }
    }

    /// One access of an unpark.
    pub open spec fn unpark_next(self, op: Unpark, post: Self, next: Unpark) -> bool {
        match op {
            Unpark::Swap => {
                &&& post == Waiter { parker: Word::Notified, ..self }
                &&& next == if self.parker == Word::Parked {
                    Unpark::Release
                } else {
                    Unpark::Done
                }
            },
            Unpark::Release => {
                &&& post == Waiter { place: Parker { thread: None, is_unparked: true }, ..self }
                &&& next == Unpark::Wake(self.place.thread->0)
            },
            Unpark::Wake(thread) => post == self && next == Unpark::Done,
            Unpark::Done => post == self && next == op,
        }
    }

    /// Performs one access of a park by `thread`.
    pub fn park(&mut self, op: Park, thread: usize, again: bool) -> (next: Park)
        requires
            old(self).parks(op),
        ensures
            old(self).park_next(op, thread, again, *final(self), next),
    {
        match op {
            Park::Load => if self.parker == Word::Notified {
                Park::Reset
            } else if again {
                Park::Load
            } else {
                Park::Exchange
            },
            Park::Exchange => if self.parker == Word::Empty {
                self.place = Parker::new(thread);
                self.parker = Word::Parked;
                Park::Wait
            } else {
                Park::Reset
            },
            Park::Wait => if self.place.park() {
                Park::Reload
            } else {
                Park::Wait
            },
            Park::Reload => Park::Reset,
            Park::Reset => {
                self.parker = Word::Empty;
                Park::Done
            },
            Park::Done => Park::Done,
        }
    }

    /// Performs one access of an unpark. A thread that comes out of it is to be woken.
    pub fn unpark(&mut self, op: Unpark) -> (next: Unpark)
        requires
            old(self).unparks(op),
        ensures
            old(self).unpark_next(op, *final(self), next),
    {
        match op {
            Unpark::Swap => {
                let seen = self.parker;
                self.parker = Word::Notified;
                if seen == Word::Parked {
                    Unpark::Release
                } else {
                    Unpark::Done
                }
            },
            Unpark::Release => {
                let thread: usize = self.place.unpark();
                Unpark::Wake(thread)
            },
            Unpark::Wake(_) => Unpark::Done,
            Unpark::Done => Unpark::Done,
        }
    }

    /// What holds while one park and one unpark of the waiter are under way, wherever they are.
    pub open spec fn handshake(self, park: Park, unpark: Unpark) -> bool {
        match unpark {
            Unpark::Swap => match park {
                Park::Load => self.parker == Word::Empty,
                Park::Exchange => self.parker == Word::Empty,
                Park::Wait => self.parker == Word::Parked && self.place.thread is Some
                    && !self.place.is_unparked,
                _ => false,
            },
            Unpark::Release => {
                &&& park is Wait
                &&& self.parker == Word::Notified
                &&& self.place.thread is Some
                &&& !self.place.is_unparked
            },
            _ => match park {
                Park::Wait => self.parker == Word::Notified && self.place.is_unparked,
                Park::Done => self.parker == Word::Empty,
                _ => self.parker == Word::Notified,
            },
        }
    }

    /// A park and an unpark of a waiter may begin when it is empty.
    pub proof fn lemma_rest(self)
        requires
            self.parker == Word::Empty,
        ensures
            self.handshake(Park::Load, Unpark::Swap),
    {
    }

    /// However a park and an unpark interleave, each access of the park finds what it has to find.
    /// The park is over only once the unpark has swapped the word. Until it was told to go on it
    /// looks again as often as it wants to, and then leaves its thread where the unpark finds it;
    /// no other access touches the place. Once the unpark has let the thread go on, the park does
    /// not sleep any more: every access brings it nearer to its end.
    pub proof fn lemma_park(
        self,
        park: Park,
        unpark: Unpark,
        thread: usize,
        again: bool,
        post: Self,
        next: Park,
    )
        requires
            self.handshake(park, unpark),
            self.park_next(park, thread, again, post, next),
        ensures
            self.parks(park),
            post.handshake(next, unpark),
            post.next == self.next,
            next is Done ==> !(unpark is Swap) && !(unpark is Release),
            !(unpark is Swap) && !(unpark is Release) && !(park is Done) ==> next.rank() < park.rank(),
            park is Load && unpark is Swap ==> (next is Load <==> again),
            park is Load && unpark is Swap && !again ==> next is Exchange,
            park is Exchange && unpark is Swap ==> next is Wait,
            park is Exchange && next is Wait ==> post.parker == Word::Parked && post.place.thread
                == Some(thread) && !post.place.is_unparked,
            !(park is Exchange && next is Wait) ==> post.place == self.place,
    {
    }

    /// However a park and an unpark interleave, each access of the unpark finds what it has to
    /// find, and the thread that it wakes is the one that sleeps: the swap leaves the place as it
    /// is, and a thread that sleeps there when the word is swapped is let go on and then woken.
    pub proof fn lemma_unpark(self, park: Park, unpark: Unpark, post: Self, next: Unpark)
        requires
            self.handshake(park, unpark),
            self.unpark_next(unpark, post, next),
        ensures
            self.unparks(unpark),
            post.handshake(park, next),
            post.next == self.next,
            unpark is Release ==> next == Unpark::Wake(self.place.thread->0),
            unpark is Release ==> post.place.is_unparked,
            !(unpark is Release) ==> post.place == self.place,
            unpark is Swap ==> post.parker == Word::Notified,
            unpark is Swap ==> (next is Release <==> park is Wait),
            next is Done ==> unpark is Wake || unpark is Done || unpark is Swap && !(park is Wait),
    {
    }
}

} // verus!
