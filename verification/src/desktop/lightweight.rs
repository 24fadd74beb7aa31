//! A window that was closed is destroyed after a while, to give its memory back, and
//! is made again when it is wanted.

use vstd::prelude::*;

verus! {

/// Whether the window is gone, and which of the timers that were set still counts.
#[derive(Debug, Clone, Copy)]
pub struct Lightweight {
    pub in_lightweight: bool,
    /// A timer counts only if no number was given since it was set.
    pub generation: u64,
}

/// What is to be done when a window was closed.
#[derive(Debug, Clone, Copy, PartialEq, Eq, Structural)]
pub enum Schedule {
    /// The window is to be destroyed at once.
    DestroyNow,
    /// The window is gone already.
    Nothing,
    /// A timer is to be set.
    Later { generation: u64, seconds: u64 },
}

/// The next number of a timer.
pub open spec fn next_generation(g: u64) -> u64 {
    if g == u64::MAX {
        0
    } else {
        (g + 1) as u64
    }
}

/// Minutes in seconds, as far as they can be counted.
pub open spec fn seconds_of(minutes: u64) -> u64 {
    if minutes * 60 > u64::MAX {
        u64::MAX
    } else {
        (minutes * 60) as u64
    }
}

impl Lightweight {
    /// With a window, and without timers.
    pub fn new() -> (r: Self)
        ensures
            r == (Lightweight { in_lightweight: false, generation: 0 }),
    {
        Lightweight { in_lightweight: false, generation: 0 }
    }

    /// Voids all timers.
    pub fn cancel_timer(&mut self)
        ensures
            *final(self) == (Lightweight {
                generation: next_generation(old(self).generation),
                ..*old(self)
            }),
    {
        self.generation = self.generation.wrapping_add(1);
    }

    /// A window was closed: without a delay it is destroyed at once, else a timer is
    /// set, and no other counts any more.
    pub fn schedule_after_close(&mut self, minutes: u64) -> (r: Schedule)
        ensures
            if minutes == 0 {
                *final(self) == old(self).entered() && r == if old(self).in_lightweight {
                    Schedule::Nothing
                } else {
                    Schedule::DestroyNow
                }
            } else {
                &&& *final(self) == (Lightweight {
                    generation: next_generation(old(self).generation),
                    ..*old(self)
                })
                &&& r == (Schedule::Later {
                    generation: next_generation(old(self).generation),
                    seconds: seconds_of(minutes),
                })
            },
    {
        if minutes == 0 {
            if self.enter() {
                return Schedule::DestroyNow;
            }
            return Schedule::Nothing;
        }
        self.cancel_timer();
        let seconds: u64 = match minutes.checked_mul(60) {
            Some(n) => n,
            None => u64::MAX,
        };
        Schedule::Later { generation: self.generation, seconds }
    }

    /// Whether a timer that has run out still counts.
    pub fn timer_counts(&self, generation: u64) -> (r: bool)
        ensures
            r == (self.generation == generation),
    {
        self.generation == generation
    }

    /// Without a window. A window that is gone already is not destroyed again.
    pub open spec fn entered(self) -> Lightweight {
        if self.in_lightweight {
            self
        } else {
            Lightweight { in_lightweight: true, generation: next_generation(self.generation) }
        }
    }

    /// Gives the window up, if there is one; tells whether it is to be destroyed.
    pub fn enter(&mut self) -> (r: bool)
        ensures
            *final(self) == old(self).entered(),
            r == !old(self).in_lightweight,
    {
        if self.in_lightweight {
            return false;
        }
        self.in_lightweight = true;
        self.generation = self.generation.wrapping_add(1);
        true
    }

    /// The window could not be destroyed, and is still there.
    pub fn destroy_failed(&mut self)
        ensures
            *final(self) == (Lightweight { in_lightweight: false, ..*old(self) }),
    {
        self.in_lightweight = false;
    }

    /// The window is wanted again: no timer counts any more.
    pub fn exit_and_show(&mut self)
        ensures
            *final(self) == (Lightweight {
                in_lightweight: false,
                generation: next_generation(old(self).generation),
            }),
    {
        self.cancel_timer();
        self.in_lightweight = false;
    }
}

/// The number of a timer after so many others.
pub open spec fn generation_after(g: u64, n: nat) -> u64
    decreases n,
{
    if n == 0 {
        g
    } else {
        next_generation(generation_after(g, (n - 1) as nat))
    }
}

proof fn lemma_generation(g: u64, n: nat)
    ensures
        generation_after(g, n) == (g + n) % 0x1_0000_0000_0000_0000,
    decreases n,
{
    if n > 0 {
        lemma_generation(g, (n - 1) as nat);
    }
}

/// A timer that was voided stays void, however often other timers are set or voided,
/// as long as the numbers do not come round.
pub proof fn law_void_timer_stays_void(g: u64, n: nat)
    requires
        0 < n < 0x1_0000_0000_0000_0000,
    ensures
        generation_after(g, n) != g,
{
    lemma_generation(g, n);
}

/// Minutes are counted in seconds, and as many as can be counted where they are too many. A
/// window that is given up voids the timers that were set; one that is gone already stays so.
pub proof fn law_minutes_and_timers(minutes: u64, l: Lightweight)
    ensures
        minutes * 60 <= u64::MAX ==> seconds_of(minutes) == minutes * 60,
        minutes * 60 > u64::MAX ==> seconds_of(minutes) == u64::MAX,
        l.entered().in_lightweight,
        !l.in_lightweight ==> l.entered().generation != l.generation,
        l.in_lightweight ==> l.entered() == l,
{
}

} // verus!
