//! How a thread backs off.
use crate::pause::{power_of_two, Pause, Platform};
use vstd::arithmetic::power2::pow2;
use vstd::prelude::*;

verus! {

/// How often an attempt was repeated.
#[derive(Clone, Copy, Debug)]
pub struct Backoff {
    pub attempt: usize,
}

impl Default for Backoff {
    fn default() -> (backoff: Self)
        ensures
            backoff.attempt == 0,
    {
        Backoff { attempt: 0 }
    }
}

impl Backoff {
    /// No attempt was repeated yet.
    pub fn new() -> (backoff: Self)
        ensures
            backoff.attempt == 0,
    {
        Backoff { attempt: 0 }
    }

    /// Spins once and returns true, but at most 32 times, and only where spinning is cheap and
    /// another thread can run meanwhile.
    pub fn try_yield_now(&mut self, platform: Platform) -> (spun: bool)
        ensures
            spun == (platform.cpus != 1 && platform.x86 && old(self).attempt < 32),
            final(self).attempt == old(self).attempt + if spun {
                1int
            } else {
                0
            },
    {
        if platform.cpus == 1 {
            return false;
        }
        let max_cpu_spin: usize = if platform.x86 {
            32
        } else {
            0
        };
        if self.attempt >= max_cpu_spin {
            return false;
        }
        self.attempt = self.attempt + 1;
        std::hint::spin_loop();
        true
    }

    /// Some systems are better off with spinning than with yielding, however long it takes.
    pub open spec fn always_spins(platform: Platform) -> bool {
        platform.windows || platform.linux || platform.android
    }

    /// The attempts after which the thread stops spinning on the other systems.
    pub open spec fn spin_limit(platform: Platform) -> nat {
        if platform.x86 {
            6
        } else {
            3
        }
    }

    /// How the thread waits after the attempts counted so far: it spins twice as long each time,
    /// up to 1024 spins, and after some attempts it gives its time slice away instead. With a
    /// single processor it does not wait at all.
    pub fn yield_now(&mut self, platform: Platform) -> (pause: Pause)
        ensures
            platform.cpus == 1 ==> pause == Pause::Nothing && final(self).attempt == old(
                self,
            ).attempt,
            platform.cpus != 1 && (old(self).attempt <= Self::spin_limit(platform)
                || Self::always_spins(platform)) ==> {
                &&& pause == Pause::Spin(
                    pow2(
                        if old(self).attempt < 10 {
                            old(self).attempt as nat
                        } else {
                            10
                        },
                    ) as usize,
                )
                &&& final(self).attempt == old(self).attempt.wrapping_add(1)
            },
            platform.cpus != 1 && !(old(self).attempt <= Self::spin_limit(platform)
                || Self::always_spins(platform)) ==> pause == Pause::Yield && final(self).attempt
                == old(self).attempt,
            pause is Yield <==> platform.cpus != 1 && !platform.windows && !platform.linux
                && !platform.android && old(self).attempt > if platform.x86 {
                6int
            } else {
                3
            },
            pause is Nothing <==> platform.cpus == 1,
    {
        if platform.cpus == 1 {
            return Pause::Nothing;
        }
        let max_cpu_spin: usize = if platform.x86 {
            6
        } else {
            3
        };
        let always_spin: bool = platform.windows || platform.linux || platform.android;
        if self.attempt <= max_cpu_spin || always_spin {
            let exponent: usize = if self.attempt < 10 {
                self.attempt
            } else {
                10
            };
            self.attempt = self.attempt.wrapping_add(1);
            return Pause::Spin(power_of_two(exponent));
        }
        Pause::Yield
    }
}

} // verus!
