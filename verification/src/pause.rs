//! What a thread does between two attempts, and the machine facts that decide it.
use vstd::arithmetic::power2::pow2;
use vstd::prelude::*;

verus! {

/// The facts about the machine that the waiting policies ask for.
#[derive(Clone, Copy, Debug, PartialEq, Eq, Structural)]
pub struct Platform {
    /// How many threads can run at the same time (at least one).
    pub cpus: usize,
    /// The processor is of the x86 family (32 or 64 bit).
    pub x86: bool,
    /// The processor is a 64 bit Arm.
    pub aarch64: bool,
    /// The system is Windows.
    pub windows: bool,
    /// The system is Linux.
    pub linux: bool,
    /// The system is Android.
    pub android: bool,
    /// The system is one of Apple's.
    pub apple: bool,
}

/// How a thread passes the time before its next attempt.
#[derive(Clone, Copy, Debug, PartialEq, Eq, Structural)]
pub enum Pause {
    /// Go on at once.
    Nothing,
    /// Execute the processor's spin hint that many times.
    Spin(usize),
    /// Wait for a processor event.
    Event,
    /// Give the rest of the time slice to another thread.
    Yield,
    /// Lower the thread's priority for that many milliseconds.
    Depress(u32),
    /// Sleep for that many milliseconds.
    Sleep(u64),
}

/// The processor's spin hint, `std::hint::spin_loop`: it has no effect on values, and nothing is
/// claimed of it.
pub assume_specification[ std::hint::spin_loop ]()
;

/// `2` to the power of `exponent`, for the exponents that the waiting policies use.
pub fn power_of_two(exponent: usize) -> (power: usize)
    requires
        exponent <= 30,
    ensures
        power == pow2(exponent as nat),
{
    proof {
        vstd::bits::lemma_usize_pow2_no_overflow(exponent as nat);
        vstd::bits::lemma_usize_shl_is_mul(1, exponent);
    }
    1usize << exponent
}

} // verus!
