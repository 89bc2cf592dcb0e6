//! The fair scheduler: one runqueue ordered by virtual runtime, per-CPU
//! current and idle processes, and the process state machine.

use vstd::prelude::*;

verus! {

/// CPUs the kernel schedules on.
pub const CPU_NUM: usize = 4;

/// The default nice value, whose weight is the scale factor.
pub const SCHED_MEDIUM_NICE: usize = 20;

/// A lead smaller than this many microseconds does not justify a switch.
pub const SCHED_MIN_GRANULARITY_US: u64 = 1000;

/// The guard byte written at the base of every kernel stack.
pub const GUARD_BYTE: u8 = 0x55;

/// Guard bytes at the base of a kernel stack.
pub const GUARD_LEN: usize = 16;

/// What a process is doing.
#[derive(Clone, Copy, PartialEq, Eq, Structural, Debug)]
pub enum ProcessState {
    /// Slot exists but holds no runnable work yet.
    Unused,
    /// Ready to run, waiting in the runqueue.
    Runnable,
    /// On a CPU now.
    Running,
    /// Waiting for a wakeup.
    Sleeping,
    /// Exited, waiting to be reaped.
    Zombie,
}

/// Scheduler bookkeeping carried by every process.
#[derive(Clone, Copy, PartialEq, Eq, Structural, Debug)]
pub struct SchInfo {
    /// Weighted runtime in microseconds.
    pub vruntime: u64,
    /// Niceness, 0 to 39; smaller runs more.
    pub nice: usize,
    /// Wall time of the last dispatch; 0 when not timed.
    pub start_time: u64,
}

impl SchInfo {
    /// Fresh bookkeeping at the default niceness.
    pub fn uninit() -> (r: Self)
        ensures
            r.vruntime == 0,
            r.nice == SCHED_MEDIUM_NICE,
            r.start_time == 0,
    {
        SchInfo { vruntime: 0, nice: SCHED_MEDIUM_NICE, start_time: 0 }
    }

    /// Nothing is left to set up.
    pub fn init(&mut self)
        ensures
            *final(self) == *old(self),
    {
    }
}

/// The fixed table mapping a nice value to its load weight.
pub open spec fn spec_weight(nice: int) -> int {
    if nice < 5 {
        if nice == 0 { 88761 } else if nice == 1 { 71755 } else if nice == 2 { 56483 }
        else if nice == 3 { 46273 } else { 36291 }
    } else if nice < 10 {
        if nice == 5 { 29154 } else if nice == 6 { 23254 } else if nice == 7 { 18705 }
        else if nice == 8 { 14949 } else { 11916 }
    } else if nice < 15 {
        if nice == 10 { 9548 } else if nice == 11 { 7620 } else if nice == 12 { 6100 }
        else if nice == 13 { 4904 } else { 3906 }
    } else if nice < 20 {
        if nice == 15 { 3121 } else if nice == 16 { 2501 } else if nice == 17 { 1991 }
        else if nice == 18 { 1586 } else { 1277 }
    } else if nice < 25 {
        if nice == 20 { 1024 } else if nice == 21 { 820 } else if nice == 22 { 655 }
        else if nice == 23 { 526 } else { 423 }
    } else if nice < 30 {
        if nice == 25 { 335 } else if nice == 26 { 272 } else if nice == 27 { 215 }
        else if nice == 28 { 172 } else { 137 }
    } else if nice < 35 {
        if nice == 30 { 110 } else if nice == 31 { 87 } else if nice == 32 { 70 }
        else if nice == 33 { 56 } else { 45 }
    } else {
        if nice == 35 { 36 } else if nice == 36 { 29 } else if nice == 37 { 23 }
        else if nice == 38 { 18 } else { 15 }
    }
}

/// Reads the nice-to-weight table.
pub fn sched_prio_to_weight(nice: usize) -> (r: u64)
    requires
        nice < 40,
    ensures
        r == spec_weight(nice as int),
        1 <= r <= 88761,
{
    let table: [u64; 40] = [
        88761, 71755, 56483, 46273, 36291,
        29154, 23254, 18705, 14949, 11916,
        9548, 7620, 6100, 4904, 3906,
        3121, 2501, 1991, 1586, 1277,
        1024, 820, 655, 526, 423,
        335, 272, 215, 172, 137,
        110, 87, 70, 56, 45,
        36, 29, 23, 18, 15,
    ];
    let r = table[nice];
    proof {
        assert(r == spec_weight(nice as int));
    }
    r
}

/// The virtual runtime a run of `wall` microseconds adds at niceness
/// `nice`: wall time scaled by the default weight over the task's weight.
pub open spec fn spec_vruntime_delta(wall: int, nice: int) -> int {
    wall * 1024 / spec_weight(nice)
}

/// Computes the weighted runtime a run added.
pub fn vruntime_delta(wall: u64, nice: usize) -> (r: u64)
    requires
        nice < 40,
        wall <= 0xffff_ffff_ffffu64,
    ensures
        r == spec_vruntime_delta(wall as int, nice as int),
{
    let w = sched_prio_to_weight(nice);
    proof {
        assert(wall * 1024 <= 0xffff_ffff_ffffu64 * 1024) by (nonlinear_arith)
            requires wall <= 0xffff_ffff_ffffu64;
        vstd::arithmetic::div_mod::lemma_div_pos_is_pos(wall as int * 1024, w as int);
        vstd::arithmetic::div_mod::lemma_div_is_ordered(
            wall as int * 1024,
            0xffff_ffff_ffffu64 as int * 1024,
            w as int,
        );
    }
    wall * 1024 / w
}

} // verus!
