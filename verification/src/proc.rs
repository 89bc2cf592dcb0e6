//! Processes and their manager: the process table, the runqueue, the
//! per-CPU current and idle processes, and the process tree with exit,
//! wait and reparenting to the root.

use vstd::prelude::*;

verus! {

use crate::sched::{
    CPU_NUM, GUARD_BYTE, GUARD_LEN, ProcessState, SCHED_MIN_GRANULARITY_US, SchInfo,
    spec_vruntime_delta, vruntime_delta,
};

/// One process.
pub struct Process {
    /// Unique positive identifier; 0 marks a CPU's idle process.
    pub pid: usize,
    /// Whether a kill was requested.
    pub killed: bool,
    /// Whether this is a CPU's idle process.
    pub idle: bool,
    /// Exit code left for the reaper.
    pub exit_code: usize,
    /// What the process is doing.
    pub state: ProcessState,
    /// Posts left on the child-exit semaphore.
    pub child_exit: usize,
    /// Children, as slots of the process table.
    pub first_child: Vec<usize>,
    /// Parent slot, if any.
    pub parent: Option<usize>,
    /// Scheduler bookkeeping.
    pub sch_info: SchInfo,
    /// The guard bytes at the base of the kernel stack.
    pub guard: Vec<u8>,
}

/// One CPU's scheduling state.
pub struct Sched {
    /// The process the CPU runs now.
    pub cur_proc: Option<usize>,
    /// The CPU's idle process.
    pub idle_proc: Option<usize>,
}

/// The process table and everything the scheduler keeps about it.
pub struct ProcessManager {
    /// Every process slot.
    pub procs: Vec<Process>,
    /// Runnable non-idle slots, sorted by virtual runtime, then identifier.
    pub run_queue: Vec<usize>,
    /// Per-CPU state.
    pub cpus: Vec<Sched>,
    /// The floor new arrivals are seeded with.
    pub min_vruntime: u64,
    /// Slot of the root process, once made.
    pub root: Option<usize>,
    /// Next never-used identifier.
    pub next_pid: usize,
    /// Identifiers returned by the reaper, ready for reuse.
    pub pid_free: Vec<usize>,
}

/// Whether a stack guard is intact: exactly the guard bytes.
pub open spec fn guard_ok(g: Seq<u8>) -> bool {
    g.len() == GUARD_LEN && forall|i: int| 0 <= i < g.len() ==> g[i] == GUARD_BYTE
}

/// Runqueue order: by virtual runtime, ties by identifier.
pub open spec fn rq_le(procs: Seq<Process>, a: usize, b: usize) -> bool {
    procs[a as int].sch_info.vruntime < procs[b as int].sch_info.vruntime || (procs[
        a as int].sch_info.vruntime == procs[b as int].sch_info.vruntime && procs[a as int].pid
        <= procs[b as int].pid)
}

/// Strictly ahead in the queue order: smaller virtual runtime, or the
/// smaller identifier on a tie.
pub open spec fn rq_lt(procs: Seq<Process>, a: usize, b: usize) -> bool {
    procs[a as int].sch_info.vruntime < procs[b as int].sch_info.vruntime || (procs[
        a as int].sch_info.vruntime == procs[b as int].sch_info.vruntime && procs[a as int].pid
        < procs[b as int].pid)
}

impl ProcessManager {
    /// Whether `slot` names a process.
    pub open spec fn ok(self, slot: int) -> bool {
        0 <= slot < self.procs@.len()
    }

    /// The table's shape: the runqueue holds exactly the runnable non-idle
    /// slots in order at or above the floor, every current is a valid
    /// slot, guards are intact, and the child lists mirror the parent
    /// fields.
    pub open spec fn wf(self) -> bool {
        &&& self.wf_except(self.procs@.len() as usize)
        &&& forall|p: int|
            self.ok(p) && (#[trigger] self.procs@[p]).state == ProcessState::Runnable
                && !self.procs@[p].idle ==> self.run_queue@.contains(p as usize)
    }

    /// The same shape, except that `slot` alone may be runnable without
    /// standing in the queue; the helpers that move a slot in and out of
    /// the queue pass through this state.
    pub open spec fn wf_except(self, slot: usize) -> bool {
        &&& self.cpus@.len() == CPU_NUM
        &&& forall|k: int|
            0 <= k < self.run_queue@.len() ==> self.ok(#[trigger] self.run_queue@[k] as int)
        &&& forall|k: int|
            0 <= k < self.run_queue@.len() ==> self.procs@[#[trigger] self.run_queue@[
                k] as int].state == ProcessState::Runnable && !self.procs@[self.run_queue@[
                k] as int].idle
        &&& forall|k: int|
            0 <= k < self.run_queue@.len() - 1 ==> rq_le(
                self.procs@,
                #[trigger] self.run_queue@[k],
                self.run_queue@[k + 1],
            )
        &&& forall|p: int|
            self.ok(p) && p != slot as int && (#[trigger] self.procs@[p]).state
                == ProcessState::Runnable && !self.procs@[p].idle
                ==> self.run_queue@.contains(p as usize)
        &&& forall|a: int, b: int|
            0 <= a < b < self.run_queue@.len() ==> (#[trigger] self.run_queue@[a])
                != (#[trigger] self.run_queue@[b])
        &&& forall|k: int|
            0 <= k < self.run_queue@.len() ==> self.min_vruntime <= self.procs@[
                #[trigger] self.run_queue@[k] as int].sch_info.vruntime
        &&& forall|c: int|
            0 <= c < self.cpus@.len() ==> match (#[trigger] self.cpus@[c]).cur_proc {
                Some(p) => self.ok(p as int),
                None => true,
            }
        &&& forall|c: int|
            0 <= c < self.cpus@.len() ==> match (#[trigger] self.cpus@[c]).idle_proc {
                Some(i) => self.ok(i as int) && self.procs@[i as int].idle,
                None => true,
            }
        &&& forall|p: int|
            self.ok(p) && !(#[trigger] self.procs@[p]).idle ==> guard_ok(self.procs@[p].guard@)
        &&& forall|p: int|
            self.ok(p) ==> (#[trigger] self.procs@[p]).sch_info.nice < 40
        &&& forall|p: int, k: int|
            self.ok(p) && 0 <= k < (#[trigger] self.procs@[p]).first_child@.len() ==> self.ok(
                #[trigger] self.procs@[p].first_child@[k] as int,
            ) && self.procs@[self.procs@[p].first_child@[k] as int].parent == Some(p as usize)
        &&& forall|p: int, a: int, b: int|
            self.ok(p) && 0 <= a < b < (#[trigger] self.procs@[p]).first_child@.len()
                ==> (#[trigger] self.procs@[p].first_child@[a]) != (#[trigger] self.procs@[
                p].first_child@[b])
        &&& forall|p: int|
            self.ok(p) ==> match (#[trigger] self.procs@[p]).parent {
                Some(q) => self.ok(q as int),
                None => true,
            }
        &&& forall|p: int|
            self.ok(p) && (#[trigger] self.procs@[p]).parent == Some(p as usize) ==> self.root
                == Some(p as usize)
        &&& match self.root {
            Some(r) => self.ok(r as int) && self.procs@[r as int].parent == Some(r),
            None => true,
        }
    }

    /// Puts a runnable slot into the queue at its ordered place.
    #[verifier::rlimit(100)]
    #[verifier::spinoff_prover]
    fn insert_runqueue(&mut self, slot: usize)
        requires
            old(self).wf_except(slot),
            old(self).ok(slot as int),
            old(self).procs@[slot as int].state == ProcessState::Runnable,
            !old(self).procs@[slot as int].idle,
            !old(self).run_queue@.contains(slot),
            old(self).min_vruntime <= old(self).procs@[slot as int].sch_info.vruntime,
        ensures
            final(self).wf(),
            final(self).procs@ == old(self).procs@,
            final(self).cpus@ == old(self).cpus@,
            final(self).min_vruntime == old(self).min_vruntime,
            final(self).root == old(self).root,
            final(self).next_pid == old(self).next_pid,
            final(self).pid_free@ == old(self).pid_free@,
            final(self).run_queue@.len() == old(self).run_queue@.len() + 1,
            final(self).run_queue@.contains(slot),
            forall|q: usize|
                old(self).run_queue@.contains(q) ==> final(self).run_queue@.contains(q),
            forall|q: usize|
                final(self).run_queue@.contains(q) ==> old(self).run_queue@.contains(q) || q
                    == slot,
            final(self).run_queue@[0] == (if old(self).run_queue@.len() == 0 || rq_lt(
                old(self).procs@,
                slot,
                old(self).run_queue@[0],
            ) {
                slot
            } else {
                old(self).run_queue@[0]
            }),
    {
        let ghost rq0 = self.run_queue@;
        let mut pos: usize = 0;
        let mut stop = false;
        let vr = self.procs[slot].sch_info.vruntime;
        let pid = self.procs[slot].pid;
        while pos < self.run_queue.len() && !stop
            invariant
                *self == *old(self),
                self.wf_except(slot),
                self.ok(slot as int),
                vr == self.procs@[slot as int].sch_info.vruntime,
                pid == self.procs@[slot as int].pid,
                0 <= pos <= self.run_queue@.len(),
                forall|k: int| 0 <= k < pos ==> rq_le(self.procs@, #[trigger] self.run_queue@[k], slot),
                stop ==> pos < self.run_queue@.len() && rq_le(
                    self.procs@,
                    slot,
                    self.run_queue@[pos as int],
                ) && !rq_le(self.procs@, self.run_queue@[pos as int], slot),
            decreases self.run_queue@.len() - pos, if stop { 0int } else { 1int },
        {
            let q = self.run_queue[pos];
            let qv = self.procs[q].sch_info.vruntime;
            if qv < vr || (qv == vr && self.procs[q].pid <= pid) {
                pos += 1;
            } else {
                stop = true;
            }
        }
        proof {
            assert forall|k: int| pos <= k < self.run_queue@.len() implies rq_le(
                self.procs@,
                slot,
                #[trigger] self.run_queue@[k],
            ) by {
                if k > pos {
                    self.lemma_rq_ordered(pos as int, k);
                }
            }
        }
        self.run_queue.insert(pos, slot);
        proof {
            self.lemma_inserted_queue(*old(self), slot, pos as int);
            self.lemma_inserted_head(*old(self), slot, pos as int);
        }
    }

    /// After an ordered insert at `pos`, the queue is well formed again,
    /// holds exactly the old members plus the new slot, and its head is
    /// the new slot exactly when that slot orders strictly first.
    #[verifier::rlimit(100)]
    #[verifier::spinoff_prover]
    proof fn lemma_inserted_queue(&self, pre: Self, slot: usize, pos: int)
        requires
            pre.wf_except(slot),
            pre.ok(slot as int),
            pre.procs@[slot as int].state == ProcessState::Runnable,
            !pre.procs@[slot as int].idle,
            !pre.run_queue@.contains(slot),
            pre.min_vruntime <= pre.procs@[slot as int].sch_info.vruntime,
            0 <= pos <= pre.run_queue@.len(),
            forall|k: int| 0 <= k < pos ==> rq_le(pre.procs@, #[trigger] pre.run_queue@[k], slot),
            pos < pre.run_queue@.len() ==> !rq_le(pre.procs@, pre.run_queue@[pos], slot),
            self.procs@ == pre.procs@,
            self.cpus@ == pre.cpus@,
            self.min_vruntime == pre.min_vruntime,
            self.root == pre.root,
            self.next_pid == pre.next_pid,
            self.pid_free@ == pre.pid_free@,
            self.run_queue@ == pre.run_queue@.insert(pos, slot),
        ensures
            self.wf(),
            self.run_queue@.len() == pre.run_queue@.len() + 1,
            self.run_queue@.contains(slot),
            forall|q: usize| pre.run_queue@.contains(q) ==> self.run_queue@.contains(q),
    {
        let rq0 = pre.run_queue@;
        assert forall|k: int| pos <= k < rq0.len() implies rq_le(
            pre.procs@,
            slot,
            #[trigger] rq0[k],
        ) by {
            assert(!rq_le(pre.procs@, rq0[pos], slot));
            assert(rq_le(pre.procs@, slot, rq0[pos]));
            if k > pos {
                pre.lemma_rq_ordered(pos, k);
            }
        }
        let rq1 = self.run_queue@;
        assert forall|k: int| 0 <= k < rq1.len() - 1 implies rq_le(
            self.procs@,
            #[trigger] rq1[k],
            rq1[k + 1],
        ) by {
            if k < pos - 1 || k > pos {
                assert(rq1[k] == rq0[if k < pos { k } else { k - 1 }]);
                assert(rq1[k + 1] == rq0[if k + 1 <= pos { k + 1 } else { k }]);
            }
        }
        self.lemma_inserted_members(pre, slot, pos);
    }

    /// After an ordered insert, every runnable non-idle slot is still
    /// queued and every old member survives.
    #[verifier::rlimit(100)]
    #[verifier::spinoff_prover]
    proof fn lemma_inserted_members(&self, pre: Self, slot: usize, pos: int)
        requires
            pre.wf_except(slot),
            pre.ok(slot as int),
            0 <= pos <= pre.run_queue@.len(),
            self.procs@ == pre.procs@,
            self.run_queue@ == pre.run_queue@.insert(pos, slot),
        ensures
            forall|p: int|
                self.ok(p) && (#[trigger] self.procs@[p]).state == ProcessState::Runnable
                    && !self.procs@[p].idle ==> self.run_queue@.contains(p as usize),
            forall|q: usize| pre.run_queue@.contains(q) ==> self.run_queue@.contains(q),
            self.run_queue@.contains(slot),
    {
        let rq0 = pre.run_queue@;
        assert forall|p: int|
            self.ok(p) && (#[trigger] self.procs@[p]).state == ProcessState::Runnable
                && !self.procs@[p].idle implies self.run_queue@.contains(p as usize) by {
            if p == slot as int {
                assert(self.run_queue@[pos] == slot);
            } else {
                assert(rq0.contains(p as usize));
                let w = choose|w: int| 0 <= w < rq0.len() && rq0[w] == p as usize;
                assert(self.run_queue@[if w < pos { w } else { w + 1 }] == p as usize);
            }
        }
        assert forall|q: usize| rq0.contains(q) implies self.run_queue@.contains(q) by {
            let w = choose|w: int| 0 <= w < rq0.len() && rq0[w] == q;
            assert(self.run_queue@[if w < pos { w } else { w + 1 }] == q);
        }
        assert(self.run_queue@.contains(slot)) by {
            assert(self.run_queue@[pos] == slot);
        }
    }

    /// An ordered insert adds no stranger, and leads with the new slot
    /// exactly when that slot orders strictly first.
    #[verifier::rlimit(100)]
    #[verifier::spinoff_prover]
    proof fn lemma_inserted_head(&self, pre: Self, slot: usize, pos: int)
        requires
            0 <= pos <= pre.run_queue@.len(),
            forall|k: int| 0 <= k < pos ==> rq_le(pre.procs@, #[trigger] pre.run_queue@[k], slot),
            pos < pre.run_queue@.len() ==> !rq_le(pre.procs@, pre.run_queue@[pos], slot),
            self.run_queue@ == pre.run_queue@.insert(pos, slot),
        ensures
            forall|q: usize|
                self.run_queue@.contains(q) ==> pre.run_queue@.contains(q) || q == slot,
            self.run_queue@[0] == (if pre.run_queue@.len() == 0 || rq_lt(
                pre.procs@,
                slot,
                pre.run_queue@[0],
            ) {
                slot
            } else {
                pre.run_queue@[0]
            }),
    {
        let rq0 = pre.run_queue@;
        if pos == 0 {
            assert(self.run_queue@[0] == slot);
            if rq0.len() > 0 {
                assert(!rq_le(pre.procs@, rq0[0], slot));
                assert(rq_lt(pre.procs@, slot, rq0[0]));
            }
        } else {
            assert(self.run_queue@[0] == rq0[0]);
            assert(rq_le(pre.procs@, rq0[0], slot));
            assert(!rq_lt(pre.procs@, slot, rq0[0]));
        }
        assert forall|q: usize| self.run_queue@.contains(q) implies rq0.contains(q) || q
            == slot by {
            let w = choose|w: int| 0 <= w < self.run_queue@.len() && self.run_queue@[w] == q;
            if w < pos {
                assert(rq0[w] == q);
            } else if w > pos {
                assert(rq0[w - 1] == q);
            }
        }
    }

    /// Queue order is transitive along the queue.
    proof fn lemma_rq_ordered(&self, a: int, b: int)
        requires
            forall|k: int|
                0 <= k < self.run_queue@.len() - 1 ==> rq_le(
                    self.procs@,
                    #[trigger] self.run_queue@[k],
                    self.run_queue@[k + 1],
                ),
            0 <= a <= b < self.run_queue@.len(),
        ensures
            rq_le(self.procs@, self.run_queue@[a], self.run_queue@[b]),
        decreases b - a,
    {
        if a < b {
            self.lemma_rq_ordered(a + 1, b);
        }
    }

    /// Takes a slot out of the queue, wherever it stands.
    #[verifier::rlimit(100)]
    #[verifier::spinoff_prover]
    fn remove_runqueue(&mut self, slot: usize)
        requires
            old(self).wf_except(slot),
        ensures
            final(self).wf_except(slot),
            final(self).procs@ == old(self).procs@,
            final(self).cpus@ == old(self).cpus@,
            final(self).min_vruntime == old(self).min_vruntime,
            final(self).root == old(self).root,
            final(self).next_pid == old(self).next_pid,
            final(self).pid_free@ == old(self).pid_free@,
            !final(self).run_queue@.contains(slot),
            forall|q: usize|
                q != slot && old(self).run_queue@.contains(q)
                    ==> final(self).run_queue@.contains(q),
            forall|q: usize|
                final(self).run_queue@.contains(q) ==> old(self).run_queue@.contains(q),
            !old(self).run_queue@.contains(slot) ==> final(self).run_queue@ == old(
                self,
            ).run_queue@,
    {
        let nprocs = self.procs.len();
        let ghost rq0 = self.run_queue@;
        let mut i: usize = 0;
        let mut found = false;
        let mut at: usize = 0;
        while i < self.run_queue.len() && !found
            invariant
                *self == *old(self),
                self.wf_except(slot),
                nprocs == self.procs@.len(),
                0 <= i <= self.run_queue@.len(),
                forall|k: int| 0 <= k < i ==> (#[trigger] self.run_queue@[k]) != slot,
                found ==> at < self.run_queue@.len() && self.run_queue@[at as int] == slot,
            decreases self.run_queue@.len() - i, if found { 0int } else { 1int },
        {
            if self.run_queue[i] == slot {
                found = true;
                at = i;
            } else {
                i += 1;
            }
        }
        if !found {
            proof {
                assert(!self.run_queue@.contains(slot));
            }
            return ;
        }
        self.run_queue.remove(at);
        proof {
            assert(rq0[at as int] == slot);
            let rq1 = self.run_queue@;
            assert forall|k: int| 0 <= k < rq1.len() - 1 implies rq_le(
                self.procs@,
                #[trigger] rq1[k],
                rq1[k + 1],
            ) by {
                let k0 = if k < at { k } else { k + 1 };
                let k1 = if k + 1 < at { k + 1 } else { k + 2 };
                assert(rq1[k] == rq0[k0] && rq1[k + 1] == rq0[k1]);
                if k1 == k0 + 1 {
                } else {
                    old(self).lemma_rq_ordered(k0, k1);
                }
            }
            assert forall|p: int|
                self.ok(p) && (#[trigger] self.procs@[p]).state == ProcessState::Runnable
                    && !self.procs@[p].idle && p != slot as int implies self.run_queue@.contains(
                p as usize,
            ) by {
                assert(rq0.contains(p as usize));
                let w = choose|w: int| 0 <= w < rq0.len() && rq0[w] == p as usize;
                assert((p as usize) as int == p);
                assert(rq0[w] != rq0[at as int]);
                assert(w != at);
                assert(rq1[if w < at { w } else { w - 1 }] == p as usize);
            }
            assert forall|q: usize|
                q != slot && rq0.contains(q) implies self.run_queue@.contains(q) by {
                let w = choose|w: int| 0 <= w < rq0.len() && rq0[w] == q;
                assert(w != at);
                assert(rq1[if w < at { w } else { w - 1 }] == q);
            }
            if self.run_queue@.contains(slot) {
                let w = choose|w: int| 0 <= w < rq1.len() && rq1[w] == slot;
                assert(rq0[if w < at { w } else { w + 1 }] == slot);
            }
            assert forall|q: usize| rq1.contains(q) implies rq0.contains(q) by {
                let w = choose|w: int| 0 <= w < rq1.len() && rq1[w] == q;
                assert(rq0[if w < at { w } else { w + 1 }] == q);
            }
        }
    }
}

} // verus!
verus! {

/// Whether CPU `c` is running a non-idle process.
pub open spec fn cur_live(pm: ProcessManager, c: int) -> bool {
    &&& 0 <= c < pm.cpus@.len()
    &&& pm.cpus@[c].cur_proc matches Some(p)
    &&& !pm.procs@[pm.cpus@[c].cur_proc.unwrap() as int].idle
}

/// Whether the scheduler has anything to measure a floor from: a queued
/// process or a CPU running a non-idle one.
pub open spec fn has_floor_source(pm: ProcessManager) -> bool {
    pm.run_queue@.len() > 0 || exists|c: int| cur_live(pm, c)
}

/// Whether `r` is the virtual runtime of one of the measured sources: the
/// queue head or some CPU's non-idle current process.
pub open spec fn floor_attained(pm: ProcessManager, r: u64) -> bool {
    ||| (pm.run_queue@.len() > 0 && r == pm.procs@[
        pm.run_queue@[0] as int].sch_info.vruntime)
    ||| exists|c: int|
        #[trigger] cur_live(pm, c) && r == pm.procs@[
            pm.cpus@[c].cur_proc.unwrap() as int].sch_info.vruntime
}

/// What a call to `wait` found.
pub enum WaitOutcome {
    /// A zombie child was reaped: its identifier and exit code.
    Reaped(usize, usize),
    /// The caller has no children at all.
    NoChildren,
    /// Children exist but none has exited yet; the caller would sleep.
    WouldBlock,
}

/// A mutable view of one process slot.
fn vec_proc_mut(procs: &mut Vec<Process>, i: usize) -> (r: &mut Process)
    requires
        i < old(procs)@.len(),
    ensures
        *r == old(procs)@[i as int],
        final(procs)@ == old(procs)@.update(i as int, *final(r)),
{
    &mut procs[i]
}

/// A mutable view of one CPU's state.
fn vec_sched_mut(cpus: &mut Vec<Sched>, i: usize) -> (r: &mut Sched)
    requires
        i < old(cpus)@.len(),
    ensures
        *r == old(cpus)@[i as int],
        final(cpus)@ == old(cpus)@.update(i as int, *final(r)),
{
    &mut cpus[i]
}

impl ProcessManager {
    /// Moves a process to `state`, keeping the runqueue in step: a
    /// non-idle process entering `Runnable` joins the queue, one leaving
    /// it departs. A process is never put back to `Unused` this way.
    #[verifier::rlimit(100)]
    #[verifier::spinoff_prover]
    pub fn update_proc_state(&mut self, slot: usize, state: ProcessState)
        requires
            old(self).wf(),
            old(self).ok(slot as int),
            state != ProcessState::Unused,
            state == ProcessState::Runnable && !old(self).procs@[slot as int].idle
                ==> old(self).min_vruntime <= old(self).procs@[slot as int].sch_info.vruntime,
        ensures
            final(self).wf(),
            final(self).procs@.len() == old(self).procs@.len(),
            final(self).procs@[slot as int].state == state,
            forall|p: int|
                old(self).ok(p) && p != slot ==> #[trigger] final(self).procs@[p] == old(
                    self,
                ).procs@[p],
            final(self).procs@[slot as int] == (Process {
                state,
                ..old(self).procs@[slot as int]
            }),
            final(self).cpus@ == old(self).cpus@,
            final(self).min_vruntime == old(self).min_vruntime,
            final(self).root == old(self).root,
            final(self).next_pid == old(self).next_pid,
            final(self).pid_free@ == old(self).pid_free@,
            state == ProcessState::Runnable && !old(self).procs@[slot as int].idle
                ==> final(self).run_queue@.contains(slot),
            state != ProcessState::Runnable ==> !final(self).run_queue@.contains(slot),
            (!old(self).run_queue@.contains(slot) && (state != ProcessState::Runnable || old(
                self,
            ).procs@[slot as int].idle)) ==> final(self).run_queue@ == old(self).run_queue@,
            (state == ProcessState::Runnable && !old(self).procs@[slot as int].idle
                && !old(self).run_queue@.contains(slot))
                ==> final(self).run_queue@.len() == old(self).run_queue@.len() + 1
                && final(self).run_queue@[0] == (if old(self).run_queue@.len() == 0 || rq_lt(
                final(self).procs@,
                slot,
                old(self).run_queue@[0],
            ) {
                slot
            } else {
                old(self).run_queue@[0]
            }),
    {
        let ghost pre = *self;
        if self.procs[slot].state == state {
            proof {
                if state != ProcessState::Runnable && self.run_queue@.contains(slot) {
                    let w = choose|w: int|
                        0 <= w < self.run_queue@.len() && self.run_queue@[w] == slot;
                }
            }
            if state == ProcessState::Runnable && !self.procs[slot].idle {
                proof {
                    assert(self.run_queue@.contains(slot));
                }
                return ;
            }
            if state != ProcessState::Runnable {
                self.remove_runqueue(slot);
                proof {
                    self.lemma_wf_from_except(slot);
                }
            }
            return ;
        }
        self.remove_runqueue(slot);
        let ghost mid = *self;
        let p = vec_proc_mut(&mut self.procs, slot);
        p.state = state;
        proof {
            self.lemma_state_change_keeps(mid, slot);
        }
        if state == ProcessState::Runnable && !self.procs[slot].idle {
            self.insert_runqueue(slot);
        } else {
            proof {
                self.lemma_wf_from_except(slot);
                if self.run_queue@.contains(slot) {
                    let w = choose|w: int|
                        0 <= w < self.run_queue@.len() && self.run_queue@[w] == slot;
                }
            }
        }
    }

    /// A table well formed except at a slot that is not runnable, or
    /// runnable but queued, is well formed.
    proof fn lemma_wf_from_except(&self, slot: usize)
        requires
            self.wf_except(slot),
            self.ok(slot as int) ==> (self.procs@[slot as int].state == ProcessState::Runnable
                && !self.procs@[slot as int].idle ==> self.run_queue@.contains(slot)),
        ensures
            self.wf(),
    {
        assert forall|p: int|
            self.ok(p) && (#[trigger] self.procs@[p]).state == ProcessState::Runnable
                && !self.procs@[p].idle implies self.run_queue@.contains(p as usize) by {
            if p == slot as int {
            } else {
            }
        }
    }

    /// Rewriting one slot's state alone leaves the rest of the shape
    /// intact, with the slot itself out of the queue.
    #[verifier::rlimit(100)]
    proof fn lemma_state_change_keeps(&self, pre: Self, slot: usize)
        requires
            pre.wf_except(slot),
            pre.ok(slot as int),
            !pre.run_queue@.contains(slot),
            self.procs@.len() == pre.procs@.len(),
            forall|p: int|
                pre.ok(p) && p != slot ==> #[trigger] self.procs@[p] == pre.procs@[p],
            self.procs@[slot as int].idle == pre.procs@[slot as int].idle,
            self.procs@[slot as int].guard@ == pre.procs@[slot as int].guard@,
            self.procs@[slot as int].sch_info.nice == pre.procs@[slot as int].sch_info.nice,
            self.procs@[slot as int].first_child@ == pre.procs@[slot as int].first_child@,
            self.procs@[slot as int].parent == pre.procs@[slot as int].parent,
            self.run_queue@ == pre.run_queue@,
            self.cpus@ == pre.cpus@,
            self.min_vruntime == pre.min_vruntime,
            self.root == pre.root,
        ensures
            self.wf_except(slot),
            !self.run_queue@.contains(slot),
    {
        assert forall|p: int|
            self.ok(p) && (#[trigger] self.procs@[p]).parent == Some(p as usize)
                implies self.root == Some(p as usize) by {
            if p == slot as int {
                assert(self.procs@[p].parent == pre.procs@[p].parent);
            } else {
                assert(self.procs@[p] == pre.procs@[p]);
            }
        }
        match self.root {
            Some(r) => {
                if r as int == slot as int {
                    assert(self.procs@[r as int].parent == pre.procs@[r as int].parent);
                } else {
                    assert(self.procs@[r as int] == pre.procs@[r as int]);
                }
            },
            None => {},
        }
        assert forall|k: int| 0 <= k < self.run_queue@.len() implies self.procs@[
            #[trigger] self.run_queue@[k] as int].state == ProcessState::Runnable
            && !self.procs@[self.run_queue@[k] as int].idle by {
            assert(self.run_queue@[k] != slot);
        }
        assert forall|k: int| 0 <= k < self.run_queue@.len() - 1 implies rq_le(
            self.procs@,
            #[trigger] self.run_queue@[k],
            self.run_queue@[k + 1],
        ) by {
            assert(rq_le(pre.procs@, self.run_queue@[k], self.run_queue@[k + 1]));
            assert(self.run_queue@[k] != slot && self.run_queue@[k + 1] != slot);
        }
        assert forall|k: int| 0 <= k < self.run_queue@.len() implies self.min_vruntime
            <= self.procs@[#[trigger] self.run_queue@[k] as int].sch_info.vruntime by {
            assert(self.run_queue@[k] != slot);
        }
        assert forall|p: int|
            self.ok(p) && p != slot as int && (#[trigger] self.procs@[p]).state
                == ProcessState::Runnable && !self.procs@[p].idle
                implies self.run_queue@.contains(p as usize) by {
            assert(self.procs@[p] == pre.procs@[p]);
        }
        assert forall|p: int|
            self.ok(p) && !(#[trigger] self.procs@[p]).idle implies guard_ok(
            self.procs@[p].guard@,
        ) by {
            if p == slot as int {
                assert(self.procs@[p].guard@ == pre.procs@[p].guard@);
                assert(pre.procs@[p].idle == self.procs@[p].idle);
                assert(guard_ok(pre.procs@[p].guard@));
            } else {
                assert(self.procs@[p] == pre.procs@[p]);
            }
        }
        assert forall|c: int|
            0 <= c < self.cpus@.len() implies match (#[trigger] self.cpus@[c]).idle_proc {
            Some(i) => self.ok(i as int) && self.procs@[i as int].idle,
            None => true,
        } by {
            match self.cpus@[c].idle_proc {
                Some(i) => {
                    if i as int == slot as int {
                        assert(self.procs@[i as int].idle == pre.procs@[i as int].idle);
                    } else {
                        assert(self.procs@[i as int] == pre.procs@[i as int]);
                    }
                },
                None => {},
            }
        }
        assert forall|p: int| self.ok(p) implies (#[trigger] self.procs@[p]).sch_info.nice
            < 40 by {
            if p == slot as int {
                assert(self.procs@[p].sch_info.nice == pre.procs@[p].sch_info.nice);
            } else {
                assert(self.procs@[p] == pre.procs@[p]);
            }
        }
        assert forall|p: int, k: int|
            self.ok(p) && 0 <= k < (#[trigger] self.procs@[p]).first_child@.len() implies self.ok(
            #[trigger] self.procs@[p].first_child@[k] as int,
        ) && self.procs@[self.procs@[p].first_child@[k] as int].parent == Some(
            p as usize,
        ) by {
            if p == slot as int {
                assert(self.procs@[p].first_child@ == pre.procs@[p].first_child@);
            } else {
                assert(self.procs@[p] == pre.procs@[p]);
            }
            assert(0 <= k < pre.procs@[p].first_child@.len());
            assert(pre.ok(pre.procs@[p].first_child@[k] as int));
            assert(pre.procs@[pre.procs@[p].first_child@[k] as int].parent == Some(p as usize));
            let c = self.procs@[p].first_child@[k];
            if c as int == slot as int {
                assert(self.procs@[c as int].parent == pre.procs@[c as int].parent);
            } else {
                assert(self.procs@[c as int] == pre.procs@[c as int]);
            }
        }
        assert forall|p: int, a: int, b: int|
            self.ok(p) && 0 <= a < b < (#[trigger] self.procs@[p]).first_child@.len()
                implies (#[trigger] self.procs@[p].first_child@[a]) != (#[trigger] self.procs@[
            p].first_child@[b]) by {
            if p == slot as int {
                assert(self.procs@[p].first_child@ == pre.procs@[p].first_child@);
            } else {
                assert(self.procs@[p] == pre.procs@[p]);
            }
        }
    }

    /// The floor of every runnable and running virtual runtime: the queue
    /// head and each CPU's non-idle current, or 0 with nothing to measure.
    pub fn get_min_vruntime(&self) -> (r: u64)
        requires
            self.wf(),
        ensures
            forall|k: int|
                0 <= k < self.run_queue@.len() ==> r <= self.procs@[
                    #[trigger] self.run_queue@[k] as int].sch_info.vruntime,
            forall|c: int|
                0 <= c < self.cpus@.len() ==> match (#[trigger] self.cpus@[c]).cur_proc {
                    Some(p) => !self.procs@[p as int].idle ==> r <= self.procs@[
                        p as int].sch_info.vruntime,
                    None => true,
                },
            has_floor_source(*self) ==> floor_attained(*self, r),
            !has_floor_source(*self) ==> r == 0,
    {
        let mut valid = false;
        let mut min: u64 = u64::MAX;
        if self.run_queue.len() > 0 {
            let head = self.run_queue[0];
            min = self.procs[head].sch_info.vruntime;
            valid = true;
            proof {
                assert forall|k: int| 0 <= k < self.run_queue@.len() implies min <= self.procs@[
                    #[trigger] self.run_queue@[k] as int].sch_info.vruntime by {
                    self.lemma_rq_ordered(0, k);
                }
            }
        }
        let ghost after_head = min;
        let mut c: usize = 0;
        while c < self.cpus.len()
            invariant
                self.wf(),
                c <= self.cpus@.len(),
                min <= after_head,
                valid ==> floor_attained(*self, min),
                !valid ==> self.run_queue@.len() == 0 && min == u64::MAX && after_head == u64::MAX,
                !valid ==> forall|d: int|
                    0 <= d < c ==> !(cur_live(*self, d)),
                forall|k: int|
                    0 <= k < self.run_queue@.len() ==> after_head <= self.procs@[
                        #[trigger] self.run_queue@[k] as int].sch_info.vruntime,
                forall|d: int|
                    0 <= d < c ==> match (#[trigger] self.cpus@[d]).cur_proc {
                        Some(p) => !self.procs@[p as int].idle ==> min <= self.procs@[
                            p as int].sch_info.vruntime,
                        None => true,
                    },
            decreases self.cpus@.len() - c,
        {
            let ghost oldmin = min;
            let ghost oldvalid = valid;
            match self.cpus[c].cur_proc {
                Some(p) => {
                    if !self.procs[p].idle {
                        let v = self.procs[p].sch_info.vruntime;
                        if v < min {
                            min = v;
                        }
                        valid = true;
                        proof {
                            assert(cur_live(*self, c as int));
                            if v <= oldmin {
                                assert(min == v);
                                assert(floor_attained(*self, min));
                            } else {
                                assert(min == oldmin);
                                if !oldvalid {
                                    assert(oldmin == u64::MAX);
                                    assert(v <= u64::MAX);
                                }
                                assert(floor_attained(*self, min));
                            }
                        }
                    }
                },
                None => {},
            }
            c += 1;
        }
        proof {
            if !valid {
                assert(!has_floor_source(*self));
            }
        }
        if valid {
            min
        } else {
            0
        }
    }
}

} // verus!
verus! {

impl ProcessManager {
    /// A manager with no processes, idle CPUs and a fresh identifier pool.
    pub fn new() -> (r: Self)
        ensures
            r.wf(),
            r.procs@.len() == 0,
            r.run_queue@.len() == 0,
            r.root is None,
    {
        let mut cpus: Vec<Sched> = Vec::new();
        let mut c: usize = 0;
        while c < CPU_NUM
            invariant
                c <= CPU_NUM,
                cpus@.len() == c,
                forall|k: int|
                    0 <= k < c ==> (#[trigger] cpus@[k]).cur_proc is None && cpus@[k].idle_proc
                        is None,
            decreases CPU_NUM - c,
        {
            cpus.push(Sched { cur_proc: None, idle_proc: None });
            c += 1;
        }
        ProcessManager {
            procs: Vec::new(),
            run_queue: Vec::new(),
            cpus,
            min_vruntime: 0,
            root: None,
            next_pid: 1,
            pid_free: Vec::new(),
        }
    }

    /// Brings a process to `Runnable`: an unused or sleeping one is seeded
    /// at the floor and queued; a runnable or running one is left alone; a
    /// zombie is refused silently.
    pub fn activate(&mut self, slot: usize)
        requires
            old(self).wf(),
            old(self).ok(slot as int),
        ensures
            final(self).wf(),
            final(self).procs@.len() == old(self).procs@.len(),
            (old(self).procs@[slot as int].state == ProcessState::Unused || old(self).procs@[
                slot as int].state == ProcessState::Sleeping) ==> final(self).procs@[
                slot as int].state == ProcessState::Runnable && final(self).procs@[
                slot as int].sch_info.vruntime == old(self).min_vruntime && (!final(self).procs@[
                slot as int].idle ==> final(self).run_queue@.contains(slot)),
            (old(self).procs@[slot as int].state == ProcessState::Runnable || old(self).procs@[
                slot as int].state == ProcessState::Running || old(self).procs@[
                slot as int].state == ProcessState::Zombie) ==> *final(self) == *old(self),
            forall|p: int|
                old(self).ok(p) && p != slot ==> final(self).procs@[p] == old(self).procs@[p],
            final(self).min_vruntime == old(self).min_vruntime,
            final(self).cpus@ == old(self).cpus@,
            final(self).root == old(self).root,
            final(self).pid_free@ == old(self).pid_free@,
    {
        let st = self.procs[slot].state;
        match st {
            ProcessState::Unused | ProcessState::Sleeping => {
                let ghost pre = *self;
                let mv = self.min_vruntime;
                proof {
                    if pre.run_queue@.contains(slot) {
                        let w = choose|w: int|
                            0 <= w < pre.run_queue@.len() && pre.run_queue@[w] == slot;
                    }
                }
                let p = vec_proc_mut(&mut self.procs, slot);
                p.sch_info.vruntime = mv;
                p.sch_info.start_time = 0;
                proof {
                    self.lemma_state_change_keeps(pre, slot);
                    self.lemma_wf_from_except(slot);
                }
                let ghost mid = *self;
                self.update_proc_state(slot, ProcessState::Runnable);
                proof {
                    assert forall|p: int| old(self).ok(p) && p != slot implies #[trigger] self.procs@[p]
                        == old(self).procs@[p] by {
                        assert(self.procs@[p] == mid.procs@[p]);
                    }
                }
            },
            _ => {},
        }
    }

    /// Gives the CPU up: the caller goes back to `Runnable` and the
    /// scheduler dispatches.
    pub fn yield_(&mut self, cpu: usize, now: u64)
        requires
            old(self).wf(),
            cpu < CPU_NUM,
            old(self).cpus@[cpu as int].cur_proc matches Some(p) && old(self).procs@[
                p as int].state == ProcessState::Running,
            old(self).cpus@[cpu as int].idle_proc matches Some(i) && old(self).procs@[
                i as int].idle && old(self).procs@[i as int].state != ProcessState::Unused,
            ({
                let p = old(self).cpus@[cpu as int].cur_proc.unwrap();
                let st = old(self).procs@[p as int].sch_info.start_time;
                st > 0 ==> st <= now && now - st <= 0xffff_ffff_ffffu64
            }),
        ensures
            final(self).wf(),
            ({
                let this = old(self).cpus@[cpu as int].cur_proc.unwrap();
                if old(self).procs@[this as int].killed {
                    *final(self) == *old(self)
                } else {
                    &&& dispatched(*final(self), cpu)
                    &&& final(self).cpus@[cpu as int].cur_proc == Some(
                        spec_dispatch_choice(*old(self), cpu, ProcessState::Runnable, now),
                    )
                }
            }),
    {
        self.sched(cpu, ProcessState::Runnable, now);
    }

    /// Moves the CPU's current process to `new_state` and dispatches the
    /// runqueue's minimum, or keeps running the caller when its lead is
    /// within the granularity, or falls back to the CPU's idle process. A
    /// killed process refuses to leave for any state but `Zombie`.
    #[verifier::rlimit(100)]
    #[verifier::spinoff_prover]
    pub fn sched(&mut self, cpu: usize, new_state: ProcessState, now: u64)
        requires
            old(self).wf(),
            cpu < CPU_NUM,
            new_state == ProcessState::Runnable || new_state == ProcessState::Sleeping
                || new_state == ProcessState::Zombie,
            old(self).cpus@[cpu as int].cur_proc matches Some(p) && old(self).procs@[
                p as int].state == ProcessState::Running,
            old(self).cpus@[cpu as int].idle_proc matches Some(i) && old(self).procs@[
                i as int].idle && old(self).procs@[i as int].state != ProcessState::Unused,
            ({
                let p = old(self).cpus@[cpu as int].cur_proc.unwrap();
                let st = old(self).procs@[p as int].sch_info.start_time;
                st > 0 ==> st <= now && now - st <= 0xffff_ffff_ffffu64
            }),
        ensures
            final(self).wf(),
            ({
                let this = old(self).cpus@[cpu as int].cur_proc.unwrap();
                if old(self).procs@[this as int].killed && new_state != ProcessState::Zombie {
                    *final(self) == *old(self)
                } else {
                    &&& dispatched(*final(self), cpu)
                    &&& final(self).cpus@[cpu as int].cur_proc == Some(
                        spec_dispatch_choice(*old(self), cpu, new_state, now),
                    )
                    &&& final(self).procs@[this as int].sch_info.vruntime
                        == spec_accounted_vruntime(*old(self), this, now)
                    &&& final(self).procs@[this as int].state == (if this == final(self).cpus@[
                        cpu as int].cur_proc.unwrap() {
                        ProcessState::Running
                    } else {
                        new_state
                    })
                }
            }),
            final(self).procs@.len() == old(self).procs@.len(),
            forall|p: int|
                old(self).ok(p) ==> (#[trigger] final(self).procs@[p]).parent == old(self).procs@[
                    p].parent && final(self).procs@[p].first_child@ == old(self).procs@[
                    p].first_child@ && final(self).procs@[p].pid == old(self).procs@[p].pid
                    && final(self).procs@[p].exit_code == old(self).procs@[p].exit_code
                    && final(self).procs@[p].child_exit == old(self).procs@[p].child_exit,
            final(self).root == old(self).root,
            final(self).pid_free@ == old(self).pid_free@,
            ({
                let this = old(self).cpus@[cpu as int].cur_proc.unwrap();
                (!(old(self).procs@[this as int].killed && new_state != ProcessState::Zombie)
                    && new_state != ProcessState::Runnable && !old(self).procs@[
                    this as int].idle) ==> final(self).cpus@[cpu as int].cur_proc != Some(this)
            }),
    {
        let this = match self.cpus[cpu].cur_proc {
            Some(p) => p,
            None => {
                proof {
                    assert(false);
                }
                return ;
            },
        };
        if self.procs[this].killed && new_state != ProcessState::Zombie {
            return ;
        }
        // Account the finished run and refresh the floor.
        let st = self.procs[this].sch_info.start_time;
        if st > 0 {
            let ghost pre = *self;
            let wall = now - st;
            let nice = self.procs[this].sch_info.nice;
            let delta = vruntime_delta(wall, nice);
            let vr = self.procs[this].sch_info.vruntime;
            let proc_ref = vec_proc_mut(&mut self.procs, this);
            if vr <= u64::MAX - delta {
                proc_ref.sch_info.vruntime = vr + delta;
            } else {
                proc_ref.sch_info.vruntime = u64::MAX;
            }
            proof {
                if pre.run_queue@.contains(this) {
                    let w = choose|w: int|
                        0 <= w < pre.run_queue@.len() && pre.run_queue@[w] == this;
                    assert(pre.procs@[pre.run_queue@[w] as int].state
                        == ProcessState::Runnable);
                }
                self.lemma_state_change_keeps(pre, this);
                self.lemma_wf_from_except(this);
            }
        }
        let ghost vr1 = spec_accounted_vruntime(*old(self), this, now);
        proof {
            assert(self.procs@[this as int].sch_info.vruntime == vr1);
            assert(self.run_queue@ == old(self).run_queue@);
        }
        let m = self.get_min_vruntime();
        proof {
            assert forall|k: int| 0 <= k < self.run_queue@.len() implies m <= self.procs@[
                #[trigger] self.run_queue@[k] as int].sch_info.vruntime by {}
        }
        self.min_vruntime = m;
        // The floor only ever moves under live runtimes, so the shape holds.
        proof {
            assert(self.wf());
        }
        proof {
            if self.run_queue@.contains(this) {
                let w = choose|w: int|
                    0 <= w < self.run_queue@.len() && self.run_queue@[w] == this;
            }
        }
        self.dispatch_from(cpu, this, new_state, now, Ghost(*old(self)), Ghost(vr1));
    }

    /// The tail of a dispatch: moves the caller to its new state, picks
    /// the successor by the queue order and the granularity rule, and puts
    /// it on the CPU.
    #[verifier::rlimit(100)]
    #[verifier::spinoff_prover]
    fn dispatch_from(
        &mut self,
        cpu: usize,
        this: usize,
        new_state: ProcessState,
        now: u64,
        Ghost(old0): Ghost<ProcessManager>,
        Ghost(vr1): Ghost<u64>,
    )
        requires
            old(self).wf(),
            cpu < CPU_NUM,
            new_state == ProcessState::Runnable || new_state == ProcessState::Sleeping
                || new_state == ProcessState::Zombie,
            old(self).procs@.len() == old0.procs@.len(),
            old(self).ok(this as int),
            forall|p: int|
                old0.ok(p) && p != this ==> #[trigger] old(self).procs@[p] == old0.procs@[p],
            old(self).procs@[this as int] == (Process {
                sch_info: SchInfo {
                    vruntime: vr1,
                    ..old0.procs@[this as int].sch_info
                },
                ..old0.procs@[this as int]
            }),
            old(self).run_queue@ == old0.run_queue@,
            old(self).cpus@ == old0.cpus@,
            old0.cpus@[cpu as int].cur_proc == Some(this),
            old0.procs@[this as int].state == ProcessState::Running,
            old0.cpus@[cpu as int].idle_proc matches Some(i) && old0.procs@[i as int].idle
                && old0.procs@[i as int].state != ProcessState::Unused,
            vr1 == spec_accounted_vruntime(old0, this, now),
            !old(self).run_queue@.contains(this),
            new_state == ProcessState::Runnable && !old0.procs@[this as int].idle ==> old(
                self,
            ).min_vruntime <= vr1,
        ensures
            final(self).wf(),
            final(self).cpus@[cpu as int].cur_proc == Some(
                spec_dispatch_choice(old0, cpu, new_state, now),
            ),
            dispatched(*final(self), cpu),
            final(self).procs@[this as int].sch_info.vruntime == vr1,
            final(self).procs@[this as int].state == (if this == final(self).cpus@[
                cpu as int].cur_proc.unwrap() {
                ProcessState::Running
            } else {
                new_state
            }),
            final(self).procs@.len() == old(self).procs@.len(),
            forall|p: int|
                old(self).ok(p) ==> (#[trigger] final(self).procs@[p]).parent == old(self).procs@[
                    p].parent && final(self).procs@[p].first_child@ == old(self).procs@[
                    p].first_child@ && final(self).procs@[p].pid == old(self).procs@[p].pid
                    && final(self).procs@[p].exit_code == old(self).procs@[p].exit_code
                    && final(self).procs@[p].child_exit == old(self).procs@[p].child_exit,
            final(self).root == old(self).root,
            final(self).pid_free@ == old(self).pid_free@,
            final(self).min_vruntime == old(self).min_vruntime,
    {
        self.update_proc_state(this, new_state);
        proof {
            assert(self.procs@[this as int].sch_info.vruntime == vr1);
        }
        // Pick what runs next.
        let next = if self.run_queue.len() > 0 {
            let head = self.run_queue[0];
            let keep = new_state == ProcessState::Runnable && !self.procs[this].idle && {
                let hv = self.procs[head].sch_info.vruntime;
                let tv = self.procs[this].sch_info.vruntime;
                hv >= tv || tv - hv < SCHED_MIN_GRANULARITY_US
            };
            if keep {
                this
            } else {
                head
            }
        } else {
            match self.cpus[cpu].idle_proc {
                Some(i) => i,
                None => {
                    proof {
                        assert(false);
                    }
                    return ;
                },
            }
        };
        proof {
            if self.run_queue@.len() > 0 {
                assert(self.run_queue@.contains(self.run_queue@[0]));
            }
            let rejoin = new_state == ProcessState::Runnable && !old0.procs@[
                this as int].idle;
            if rejoin {
                assert(self.run_queue@.len() == old0.run_queue@.len() + 1);
                if old0.run_queue@.len() == 0 {
                    assert(self.run_queue@[0] == this);
                    assert(next == this);
                } else {
                    let h = old0.run_queue@[0];
                    assert(self.run_queue@[0] == (if rq_lt(self.procs@, this, h) {
                        this
                    } else {
                        h
                    }));
                    assert(rq_lt(self.procs@, this, h) == (vr1 < old0.procs@[
                        h as int].sch_info.vruntime || (vr1 == old0.procs@[
                        h as int].sch_info.vruntime && old0.procs@[this as int].pid
                        < old0.procs@[h as int].pid))) by {
                        assert(old0.run_queue@.contains(h));
                        assert(h != this);
                        assert(self.procs@[h as int] == old0.procs@[h as int]);
                        assert(self.procs@[this as int].pid == old0.procs@[this as int].pid);
                    }
                }
            } else {
                assert(self.run_queue@ == old0.run_queue@);
                if old0.run_queue@.len() > 0 {
                    let h = old0.run_queue@[0];
                    assert(old0.run_queue@.contains(h));
                    assert(h != this);
                    assert(self.procs@[h as int] == old0.procs@[h as int]);
                }
            }
            assert(next == spec_dispatch_choice(old0, cpu, new_state, now));
        }
        self.update_proc_state(next, ProcessState::Running);
        let c = vec_sched_mut(&mut self.cpus, cpu);
        c.cur_proc = Some(next);
        let p = vec_proc_mut(&mut self.procs, this);
        p.sch_info.start_time = 0;
        let ghost pre2 = *self;
        let p2 = vec_proc_mut(&mut self.procs, next);
        p2.sch_info.start_time = now;
        p2.state = ProcessState::Running;
        proof {
            if pre2.run_queue@.contains(next) {
                let w = choose|w: int|
                    0 <= w < pre2.run_queue@.len() && pre2.run_queue@[w] == next;
            }
            self.lemma_state_change_keeps(pre2, next);
            self.lemma_wf_from_except(next);
        }
    }
}

/// The virtual runtime the current process carries once its finished run
/// is accounted: unchanged when no tick was started, otherwise grown by
/// the weighted wall time, capped at the integer maximum.
pub open spec fn spec_accounted_vruntime(pm: ProcessManager, this: usize, now: u64) -> u64 {
    let st = pm.procs@[this as int].sch_info.start_time;
    let vr = pm.procs@[this as int].sch_info.vruntime;
    if st == 0 {
        vr
    } else {
        let d = crate::sched::spec_vruntime_delta(
            now - st,
            pm.procs@[this as int].sch_info.nice as int,
        );
        if vr + d <= u64::MAX {
            (vr + d) as u64
        } else {
            u64::MAX
        }
    }
}

/// The slot the dispatch rule picks, stated over the state before the
/// call: with an empty queue the caller stays (when it re-enters as
/// runnable) or the idle process takes over; otherwise the head of the
/// queue the caller re-entered runs, except that the caller keeps the CPU
/// while its lead over that head is within the granularity.
pub open spec fn spec_dispatch_choice(
    pm: ProcessManager,
    cpu: usize,
    new_state: ProcessState,
    now: u64,
) -> usize {
    let this = pm.cpus@[cpu as int].cur_proc.unwrap();
    let vr1 = spec_accounted_vruntime(pm, this, now);
    let rejoin = new_state == ProcessState::Runnable && !pm.procs@[this as int].idle;
    if pm.run_queue@.len() == 0 {
        if rejoin {
            this
        } else {
            pm.cpus@[cpu as int].idle_proc.unwrap()
        }
    } else {
        let h = pm.run_queue@[0];
        let hv = pm.procs@[h as int].sch_info.vruntime;
        let head_is_this = rejoin && (vr1 < hv || (vr1 == hv && pm.procs@[this as int].pid
            < pm.procs@[h as int].pid));
        let chv = if head_is_this {
            vr1
        } else {
            hv
        };
        if rejoin && (chv >= vr1 || vr1 - chv < SCHED_MIN_GRANULARITY_US) {
            this
        } else {
            h
        }
    }
}

/// What a dispatch leaves on a CPU: a valid current process, marked
/// running, and, unless it is the idle process, a virtual runtime at or
/// above the scheduler's floor.
pub open spec fn dispatched(pm: ProcessManager, cpu: usize) -> bool {
    &&& pm.cpus@[cpu as int].cur_proc matches Some(n)
    &&& pm.ok(pm.cpus@[cpu as int].cur_proc.unwrap() as int)
    &&& pm.procs@[pm.cpus@[cpu as int].cur_proc.unwrap() as int].state == ProcessState::Running
    &&& !pm.procs@[pm.cpus@[cpu as int].cur_proc.unwrap() as int].idle ==> pm.min_vruntime
        <= pm.procs@[pm.cpus@[cpu as int].cur_proc.unwrap() as int].sch_info.vruntime
    &&& !pm.procs@[pm.cpus@[cpu as int].cur_proc.unwrap() as int].idle ==> guard_ok(
        pm.procs@[pm.cpus@[cpu as int].cur_proc.unwrap() as int].guard@,
    )
}

} // verus!
verus! {

impl ProcessManager {
    /// Makes a process: a fresh slot with a never-live identifier, intact
    /// guard bytes and default bookkeeping, attached as a child of
    /// `creator` when one is given.
    #[verifier::rlimit(100)]
    #[verifier::spinoff_prover]
    pub fn create_proc(&mut self, creator: Option<usize>) -> (slot: usize)
        requires
            old(self).wf(),
            match creator {
                Some(c) => old(self).ok(c as int),
                None => true,
            },
            old(self).next_pid < usize::MAX,
        ensures
            final(self).wf(),
            final(self).procs@.len() == old(self).procs@.len() + 1,
            slot == old(self).procs@.len(),
            final(self).procs@[slot as int].state == ProcessState::Unused,
            final(self).procs@[slot as int].pid > 0,
            !final(self).procs@[slot as int].idle,
            !final(self).procs@[slot as int].killed,
            final(self).procs@[slot as int].exit_code == 0,
            final(self).procs@[slot as int].child_exit == 0,
            final(self).procs@[slot as int].sch_info.vruntime == 0,
            final(self).procs@[slot as int].sch_info.nice == crate::sched::SCHED_MEDIUM_NICE,
            final(self).procs@[slot as int].first_child@.len() == 0,
            final(self).procs@[slot as int].parent == creator,
            guard_ok(final(self).procs@[slot as int].guard@),
            forall|p: int|
                old(self).ok(p) && Some(p as usize) != creator
                    ==> #[trigger] final(self).procs@[p] == old(self).procs@[p],
            final(self).root == old(self).root,
            final(self).cpus@ == old(self).cpus@,
            final(self).run_queue@ == old(self).run_queue@,
    {
        let pid = match self.pid_free.pop() {
            Some(p) => p,
            None => {
                let p = self.next_pid;
                self.next_pid = self.next_pid + 1;
                p
            },
        };
        let pid = if pid == 0 {
            1
        } else {
            pid
        };
        let mut guard: Vec<u8> = Vec::new();
        let mut g: usize = 0;
        while g < GUARD_LEN
            invariant
                g <= GUARD_LEN,
                guard@.len() == g,
                forall|i: int| 0 <= i < g ==> guard@[i] == GUARD_BYTE,
            decreases GUARD_LEN - g,
        {
            guard.push(GUARD_BYTE);
            g += 1;
        }
        let slot = self.procs.len();
        let p = Process {
            pid,
            killed: false,
            idle: false,
            exit_code: 0,
            state: ProcessState::Unused,
            child_exit: 0,
            first_child: Vec::new(),
            parent: creator,
            sch_info: SchInfo { vruntime: 0, nice: crate::sched::SCHED_MEDIUM_NICE, start_time: 0 },
            guard,
        };
        let ghost pre = *self;
        self.procs.push(p);
        match creator {
            Some(c) => {
                let ghost mid = *self;
                let cp = vec_proc_mut(&mut self.procs, c);
                cp.first_child.push(slot);
                proof {
                    self.lemma_create_wf(pre, slot, Some(c));
                }
            },
            None => {
                proof {
                    self.lemma_create_wf(pre, slot, None);
                }
            },
        }
        slot
    }

    /// Appending a fresh unused slot, and possibly recording it as a
    /// child, keeps the table's shape.
    #[verifier::rlimit(100)]
    proof fn lemma_create_wf(&self, pre: Self, slot: usize, creator: Option<usize>)
        requires
            pre.wf(),
            slot == pre.procs@.len(),
            self.procs@.len() == pre.procs@.len() + 1,
            forall|p: int|
                pre.ok(p) && Some(p as usize) != creator ==> #[trigger] self.procs@[p]
                    == pre.procs@[p],
            match creator {
                Some(c) => pre.ok(c as int) && self.procs@[c as int] == (Process {
                    first_child: self.procs@[c as int].first_child,
                    ..pre.procs@[c as int]
                }) && self.procs@[c as int].first_child@ == pre.procs@[
                    c as int].first_child@.push(slot),
                None => true,
            },
            self.procs@[slot as int].state == ProcessState::Unused,
            !self.procs@[slot as int].idle,
            guard_ok(self.procs@[slot as int].guard@),
            self.procs@[slot as int].sch_info.nice < 40,
            self.procs@[slot as int].first_child@.len() == 0,
            self.procs@[slot as int].parent == creator,
            self.run_queue@ == pre.run_queue@,
            self.cpus@ == pre.cpus@,
            self.min_vruntime == pre.min_vruntime,
            self.root == pre.root,
            match creator {
                Some(c) => c != slot,
                None => true,
            },
        ensures
            self.wf(),
    {
        assert forall|k: int| 0 <= k < self.run_queue@.len() implies self.ok(
            #[trigger] self.run_queue@[k] as int,
        ) && self.procs@[self.run_queue@[k] as int].state == ProcessState::Runnable
            && !self.procs@[self.run_queue@[k] as int].idle && self.min_vruntime <= self.procs@[
            self.run_queue@[k] as int].sch_info.vruntime by {
            assert(pre.ok(pre.run_queue@[k] as int));
            if Some(self.run_queue@[k]) != creator {
                assert(self.procs@[self.run_queue@[k] as int] == pre.procs@[
                    self.run_queue@[k] as int]);
            }
        }
        assert forall|k: int| 0 <= k < self.run_queue@.len() - 1 implies rq_le(
            self.procs@,
            #[trigger] self.run_queue@[k],
            self.run_queue@[k + 1],
        ) by {
            assert(rq_le(pre.procs@, self.run_queue@[k], self.run_queue@[k + 1]));
        }
        assert forall|p: int|
            self.ok(p) && (#[trigger] self.procs@[p]).state == ProcessState::Runnable
                && !self.procs@[p].idle implies self.run_queue@.contains(p as usize) by {
            if p < pre.procs@.len() {
                if Some(p as usize) != creator {
                    assert(self.procs@[p] == pre.procs@[p]);
                } else {
                    assert(self.procs@[p].state == pre.procs@[p].state);
                }
            }
        }
        assert forall|c: int|
            0 <= c < self.cpus@.len() implies match (#[trigger] self.cpus@[c]).cur_proc {
            Some(p) => self.ok(p as int),
            None => true,
        } by {}
        assert forall|c: int|
            0 <= c < self.cpus@.len() implies match (#[trigger] self.cpus@[c]).idle_proc {
            Some(i) => self.ok(i as int) && self.procs@[i as int].idle,
            None => true,
        } by {
            match self.cpus@[c].idle_proc {
                Some(i) => {
                    assert(pre.procs@[i as int].idle);
                    if Some(i) != creator {
                        assert(self.procs@[i as int] == pre.procs@[i as int]);
                    } else {
                        assert(self.procs@[i as int].idle == pre.procs@[i as int].idle);
                    }
                },
                None => {},
            }
        }
        assert forall|p: int|
            self.ok(p) && !(#[trigger] self.procs@[p]).idle implies guard_ok(
            self.procs@[p].guard@,
        ) by {
            if p < pre.procs@.len() {
                if Some(p as usize) != creator {
                    assert(self.procs@[p] == pre.procs@[p]);
                } else {
                    assert(self.procs@[p].guard@ == pre.procs@[p].guard@ && self.procs@[p].idle
                        == pre.procs@[p].idle);
                }
            }
        }
        assert forall|p: int| self.ok(p) implies (#[trigger] self.procs@[p]).sch_info.nice
            < 40 by {
            if p < pre.procs@.len() {
                if Some(p as usize) != creator {
                    assert(self.procs@[p] == pre.procs@[p]);
                } else {
                    assert(self.procs@[p].sch_info == pre.procs@[p].sch_info);
                }
            }
        }
        assert forall|p: int, k: int|
            self.ok(p) && 0 <= k < (#[trigger] self.procs@[p]).first_child@.len() implies self.ok(
            #[trigger] self.procs@[p].first_child@[k] as int,
        ) && self.procs@[self.procs@[p].first_child@[k] as int].parent == Some(
            p as usize,
        ) by {
            if p < pre.procs@.len() {
                if Some(p as usize) == creator {
                    if k < pre.procs@[p].first_child@.len() {
                        let ch = pre.procs@[p].first_child@[k];
                        assert(pre.ok(ch as int));
                        assert(pre.procs@[ch as int].parent == Some(p as usize));
                        assert(ch as int != slot as int);
                        if Some(ch) != creator {
                            assert(self.procs@[ch as int] == pre.procs@[ch as int]);
                        } else {
                            assert(self.procs@[ch as int].parent == pre.procs@[
                                ch as int].parent);
                        }
                    } else {
                        assert(self.procs@[p].first_child@[k] == slot);
                    }
                } else {
                    assert(self.procs@[p] == pre.procs@[p]);
                    let ch = pre.procs@[p].first_child@[k];
                    assert(pre.ok(ch as int));
                    assert(ch as int != slot as int);
                    if Some(ch) != creator {
                        assert(self.procs@[ch as int] == pre.procs@[ch as int]);
                    } else {
                        assert(self.procs@[ch as int].parent == pre.procs@[ch as int].parent);
                    }
                }
            }
        }
        assert forall|p: int, a: int, b: int|
            self.ok(p) && 0 <= a < b < (#[trigger] self.procs@[p]).first_child@.len()
                implies (#[trigger] self.procs@[p].first_child@[a]) != (#[trigger] self.procs@[
            p].first_child@[b]) by {
            if p < pre.procs@.len() {
                if Some(p as usize) == creator {
                    if b < pre.procs@[p].first_child@.len() {
                    } else {
                        assert(self.procs@[p].first_child@[b] == slot);
                        let ca = pre.procs@[p].first_child@[a];
                        assert(pre.ok(ca as int));
                        assert(ca as int != slot as int);
                    }
                } else {
                    assert(self.procs@[p] == pre.procs@[p]);
                }
            }
        }
        assert forall|p: int|
            self.ok(p) implies match (#[trigger] self.procs@[p]).parent {
            Some(q) => self.ok(q as int),
            None => true,
        } by {
            if p < pre.procs@.len() {
                if Some(p as usize) != creator {
                    assert(self.procs@[p] == pre.procs@[p]);
                } else {
                    assert(self.procs@[p].parent == pre.procs@[p].parent);
                }
            }
        }
        assert forall|p: int|
            self.ok(p) && (#[trigger] self.procs@[p]).parent == Some(p as usize)
                implies self.root == Some(p as usize) by {
            if p < pre.procs@.len() {
                if Some(p as usize) != creator {
                    assert(self.procs@[p] == pre.procs@[p]);
                } else {
                    assert(self.procs@[p].parent == pre.procs@[p].parent);
                }
            } else {
                assert(self.procs@[p].parent == creator);
            }
        }
        match self.root {
            Some(r) => {
                assert(pre.ok(r as int));
                if Some(r) != creator {
                    assert(self.procs@[r as int] == pre.procs@[r as int]);
                } else {
                    assert(self.procs@[r as int].parent == pre.procs@[r as int].parent);
                }
            },
            None => {},
        }
    }
}

} // verus!
verus! {

impl ProcessManager {
    /// Hands the last child of `from` to the root process, as the exit
    /// path does for each child in turn. A child that is already a zombie
    /// posts the root's child-exit semaphore so the root's wait reaps it.
    #[verifier::rlimit(100)]
    #[verifier::spinoff_prover]
    fn reparent_last_child(&mut self, from: usize, root: usize)
        requires
            old(self).wf(),
            old(self).ok(from as int),
            old(self).ok(root as int),
            from != root,
            old(self).procs@[from as int].first_child@.len() > 0,
            old(self).root == Some(root),
        ensures
            final(self).wf(),
            final(self).procs@.len() == old(self).procs@.len(),
            final(self).procs@[from as int].first_child@ == old(self).procs@[
                from as int].first_child@.drop_last(),
            ({
                let child = old(self).procs@[from as int].first_child@.last();
                &&& final(self).procs@[child as int] == (Process {
                    parent: Some(root),
                    ..old(self).procs@[child as int]
                })
                &&& final(self).procs@[root as int].first_child@ == old(self).procs@[
                    root as int].first_child@.push(child)
                &&& final(self).procs@[root as int] == (Process {
                    first_child: final(self).procs@[root as int].first_child,
                    child_exit: final(self).procs@[root as int].child_exit,
                    ..old(self).procs@[root as int]
                })
                &&& final(self).procs@[from as int] == (Process {
                    first_child: final(self).procs@[from as int].first_child,
                    ..old(self).procs@[from as int]
                })
                &&& forall|p: int|
                    old(self).ok(p) && p != from && p != root && p != child
                        ==> #[trigger] final(self).procs@[p] == old(self).procs@[p]
            }),
            final(self).run_queue@ == old(self).run_queue@,
            final(self).cpus@ == old(self).cpus@,
            final(self).min_vruntime == old(self).min_vruntime,
            final(self).root == old(self).root,
            final(self).pid_free@ == old(self).pid_free@,
    {
        let nprocs = self.procs.len();
        let ghost pre = *self;
        let fp = vec_proc_mut(&mut self.procs, from);
        let child = match fp.first_child.pop() {
            Some(c) => c,
            None => {
                proof {
                    assert(false);
                }
                return ;
            },
        };
        proof {
            assert(pre.procs@[from as int].first_child@.last() == child);
            assert(pre.ok(child as int));
            assert(pre.procs@[child as int].parent == Some(from));
        }
        let zombie = self.procs[child].state == ProcessState::Zombie;
        let cp = vec_proc_mut(&mut self.procs, child);
        cp.parent = Some(root);
        let rp = vec_proc_mut(&mut self.procs, root);
        rp.first_child.push(child);
        if zombie && rp.child_exit < usize::MAX {
            rp.child_exit = rp.child_exit + 1;
        }
        proof {
            let ghost childs0 = pre.procs@[from as int].first_child@;
            assert(child != from && child != root) by {
                assert(pre.procs@[child as int].parent == Some(from));
                if child == from {
                    assert(pre.procs@[from as int].parent == Some(from));
                    assert(pre.root == Some(from));
                }
                if child == root {
                    assert(pre.procs@[root as int].parent == Some(from));
                    assert(pre.procs@[root as int].parent == Some(root) ==> pre.root == Some(
                        root,
                    ));
                }
            }
            self.lemma_reparent_wf(pre, from, root, child);
        }
    }

    /// Moving one child from a parent to the root keeps the table's shape.
    #[verifier::rlimit(100)]
    #[verifier::spinoff_prover]
    proof fn lemma_reparent_wf(&self, pre: Self, from: usize, root: usize, child: usize)
        requires
            pre.wf(),
            pre.ok(from as int),
            pre.ok(root as int),
            pre.ok(child as int),
            from != root,
            child != from,
            child != root,
            pre.procs@[from as int].first_child@.len() > 0,
            pre.procs@[from as int].first_child@.last() == child,
            self.procs@.len() == pre.procs@.len(),
            forall|p: int|
                pre.ok(p) && p != from && p != root && p != child ==> #[trigger] self.procs@[p]
                    == pre.procs@[p],
            self.procs@[from as int] == (Process {
                first_child: self.procs@[from as int].first_child,
                ..pre.procs@[from as int]
            }),
            self.procs@[from as int].first_child@ == pre.procs@[
                from as int].first_child@.drop_last(),
            self.procs@[child as int] == (Process {
                parent: Some(root),
                ..pre.procs@[child as int]
            }),
            self.procs@[root as int] == (Process {
                first_child: self.procs@[root as int].first_child,
                child_exit: self.procs@[root as int].child_exit,
                ..pre.procs@[root as int]
            }),
            self.procs@[root as int].first_child@ == pre.procs@[
                root as int].first_child@.push(child),
            self.run_queue@ == pre.run_queue@,
            self.cpus@ == pre.cpus@,
            self.min_vruntime == pre.min_vruntime,
            self.root == pre.root,
            pre.root == Some(root),
            pre.procs@.len() <= usize::MAX,
        ensures
            self.wf(),
    {
        let touched = |p: int| p == from as int || p == root as int || p == child as int;
        assert forall|p: int| self.ok(p) implies (#[trigger] self.procs@[p]).state == pre.procs@[
            p].state && self.procs@[p].idle == pre.procs@[p].idle && self.procs@[p].sch_info
            == pre.procs@[p].sch_info && self.procs@[p].guard@ == pre.procs@[p].guard@ by {
            if !touched(p) {
                assert(self.procs@[p] == pre.procs@[p]);
            }
        }
        assert forall|k: int| 0 <= k < self.run_queue@.len() - 1 implies rq_le(
            self.procs@,
            #[trigger] self.run_queue@[k],
            self.run_queue@[k + 1],
        ) by {
            assert(rq_le(pre.procs@, self.run_queue@[k], self.run_queue@[k + 1]));
        }
        // Child lists still point back at their parents.
        assert forall|p: int, k: int|
            self.ok(p) && 0 <= k < (#[trigger] self.procs@[p]).first_child@.len() implies self.ok(
            #[trigger] self.procs@[p].first_child@[k] as int,
        ) && self.procs@[self.procs@[p].first_child@[k] as int].parent == Some(
            p as usize,
        ) by {
            if p == root as int && k == self.procs@[p].first_child@.len() - 1 {
                assert(self.procs@[p].first_child@[k] == child);
            } else {
                let ch = self.procs@[p].first_child@[k];
                assert(ch == pre.procs@[p].first_child@[k]);
                assert(pre.procs@[ch as int].parent == Some(p as usize));
                assert(ch != child) by {
                    if ch == child {
                        assert(pre.procs@[child as int].parent == Some(from));
                        assert(pre.procs@[ch as int].parent == Some(p as usize));
                        assert(p as usize == from);
                        assert((p as usize) as int == p);
                        assert(p == from as int);
                        pre.lemma_child_unique(from, k, pre.procs@[
                            from as int].first_child@.len() - 1);
                        assert(pre.procs@[from as int].first_child@[k] != child);
                        assert(false);
                    }
                }
                if !touched(ch as int) {
                    assert(self.procs@[ch as int] == pre.procs@[ch as int]);
                } else {
                    assert(self.procs@[ch as int].parent == pre.procs@[ch as int].parent);
                }
            }
        }
        assert forall|p: int|
            self.ok(p) && (#[trigger] self.procs@[p]).parent == Some(p as usize)
                implies self.root == Some(p as usize) by {
            if p == child as int {
                assert(self.procs@[p].parent == Some(root));
            } else if p == from as int || p == root as int {
                assert(self.procs@[p].parent == pre.procs@[p].parent);
            } else {
                assert(self.procs@[p] == pre.procs@[p]);
            }
        }
        assert(pre.root == Some(root) ==> pre.procs@[root as int].parent == Some(root));
        // Child lists stay free of repeats.
        assert forall|p: int, a: int, b: int|
            self.ok(p) && 0 <= a < b < (#[trigger] self.procs@[p]).first_child@.len()
                implies (#[trigger] self.procs@[p].first_child@[a]) != (#[trigger] self.procs@[
            p].first_child@[b]) by {
            if p == root as int && b == self.procs@[p].first_child@.len() - 1 {
                assert(self.procs@[p].first_child@[b] == child);
                let ca = pre.procs@[root as int].first_child@[a];
                assert(pre.procs@[ca as int].parent == Some(root));
                assert(ca != child) by {
                    assert(pre.procs@[child as int].parent == Some(from));
                }
            } else {
                assert(self.procs@[p].first_child@[a] == pre.procs@[p].first_child@[a]);
                assert(self.procs@[p].first_child@[b] == pre.procs@[p].first_child@[b]);
            }
        }
    }

    /// Two positions of one child list hold different children.
    proof fn lemma_child_unique(&self, p: usize, a: int, b: int)
        requires
            self.wf(),
            self.ok(p as int),
            0 <= a < self.procs@[p as int].first_child@.len(),
            0 <= b < self.procs@[p as int].first_child@.len(),
            a != b,
        ensures
            self.procs@[p as int].first_child@[a] != self.procs@[p as int].first_child@[b],
    {
    }
}

} // verus!
verus! {

impl ProcessManager {
    /// Ends the CPU's current process: every child moves to the root, and
    /// a child already dead posts the root's child-exit semaphore; the
    /// parent is posted too, the exit code recorded, and the process goes
    /// to `Zombie` through one last dispatch.
    #[verifier::rlimit(100)]
    #[verifier::spinoff_prover]
    pub fn exit(&mut self, cpu: usize, code: usize, now: u64)
        requires
            old(self).wf(),
            cpu < CPU_NUM,
            old(self).cpus@[cpu as int].cur_proc matches Some(p) && old(self).procs@[
                p as int].state == ProcessState::Running && !old(self).procs@[p as int].idle,
            old(self).root matches Some(r) && old(self).cpus@[cpu as int].cur_proc != Some(r),
            old(self).cpus@[cpu as int].idle_proc matches Some(i) && old(self).procs@[
                i as int].idle && old(self).procs@[i as int].state != ProcessState::Unused,
            ({
                let p = old(self).cpus@[cpu as int].cur_proc.unwrap();
                let st = old(self).procs@[p as int].sch_info.start_time;
                st > 0 ==> st <= now && now - st <= 0xffff_ffff_ffffu64
            }),
        ensures
            final(self).wf(),
            ({
                let this = old(self).cpus@[cpu as int].cur_proc.unwrap();
                let rt = old(self).root.unwrap();
                &&& final(self).procs@[this as int].state == ProcessState::Zombie
                &&& final(self).procs@[this as int].exit_code == code
                &&& final(self).procs@[this as int].first_child@.len() == 0
                &&& forall|k: int|
                    0 <= k < old(self).procs@[this as int].first_child@.len()
                        ==> final(self).procs@[#[trigger] old(self).procs@[
                        this as int].first_child@[k] as int].parent == Some(rt)
                &&& dispatched(*final(self), cpu)
            }),
    {
        let this = match self.cpus[cpu].cur_proc {
            Some(p) => p,
            None => {
                proof {
                    assert(false);
                }
                return ;
            },
        };
        let rt = match self.root {
            Some(r) => r,
            None => {
                proof {
                    assert(false);
                }
                return ;
            },
        };
        let ghost orig = *self;
        let ghost kids = self.procs@[this as int].first_child@;
        proof {
            assert(kids.take(kids.len() as int) =~= kids);
        }
        // Hand every child to the root, last first.
        let mut remaining = self.procs[this].first_child.len();
        while remaining > 0
            invariant
                orig.wf(),
                orig.procs@[this as int].first_child@ == kids,
                orig.root == Some(rt),
                self.wf(),
                self.ok(this as int),
                self.ok(rt as int),
                this != rt,
                self.root == Some(rt),
                remaining <= kids.len(),
                remaining == self.procs@[this as int].first_child@.len(),
                self.procs@[this as int].first_child@ == kids.take(remaining as int),
                forall|k: int|
                    remaining <= k < kids.len() ==> self.procs@[(#[trigger] kids[
                        k]) as int].parent == Some(rt),
                self.procs@[this as int].state == orig.procs@[this as int].state,
                self.procs@[this as int].idle == orig.procs@[this as int].idle,
                self.procs@[this as int].parent == orig.procs@[this as int].parent,
                self.procs@.len() == orig.procs@.len(),
                self.cpus@ == orig.cpus@,
                self.run_queue@ == orig.run_queue@,
                self.min_vruntime == orig.min_vruntime,
                forall|p: int|
                    self.ok(p) ==> (#[trigger] self.procs@[p]).state == orig.procs@[p].state
                        && self.procs@[p].idle == orig.procs@[p].idle && self.procs@[
                        p].sch_info == orig.procs@[p].sch_info,
            decreases remaining,
        {
            proof {
                assert(self.procs@[this as int].first_child@ == kids.take(remaining as int));
                assert(self.procs@[this as int].first_child@.len() == remaining);
                assert(kids.take(remaining as int)[remaining - 1] == kids[remaining - 1]);
                assert(self.procs@[this as int].first_child@.last() == kids[
                    remaining - 1]);
            }
            let ghost before = *self;
            self.reparent_last_child(this, rt);
            proof {
                assert(self.procs@[this as int].first_child@ =~= kids.take(
                    remaining - 1,
                ));
                let child = kids[remaining - 1];
                assert forall|k: int| remaining - 1 <= k < kids.len() implies self.procs@[
                    (#[trigger] kids[k]) as int].parent == Some(rt) by {
                    if k == remaining - 1 {
                    } else {
                        let kid = kids[k];
                        assert(before.procs@[kid as int].parent == Some(rt));
                        assert(kid != child) by {
                            orig.lemma_child_unique(this, k, remaining - 1);
                        }
                        assert(kid != this) by {
                            if kid == this {
                                assert(orig.procs@[this as int].first_child@[k] == this);
                                assert(orig.procs@[this as int].parent == Some(this));
                                assert(orig.root == Some(this));
                            }
                        }
                        assert(kid != rt) by {
                            if kid == rt {
                                assert(orig.procs@[rt as int].parent == Some(this));
                                assert(orig.procs@[rt as int].parent == Some(rt));
                            }
                        }
                        assert(self.procs@[kid as int] == before.procs@[kid as int]);
                    }
                }
            }
            remaining = remaining - 1;
        }
        // Record the exit code and post the parent.
        let ghost pre1 = *self;
        let tp = vec_proc_mut(&mut self.procs, this);
        tp.exit_code = code;
        let parent = tp.parent;
        proof {
            self.lemma_benign_field_change(pre1, this);
        }
        match parent {
            Some(par) => {
                let ghost pre2 = *self;
                let pp = vec_proc_mut(&mut self.procs, par);
                if pp.child_exit < usize::MAX {
                    pp.child_exit = pp.child_exit + 1;
                }
                proof {
                    self.lemma_benign_field_change(pre2, par);
                }
            },
            None => {},
        }
        let ghost before_sched = *self;
        // One last dispatch.
        self.sched(cpu, ProcessState::Zombie, now);
        proof {
            assert forall|k: int| 0 <= k < kids.len() implies self.procs@[(#[trigger] kids[
                k]) as int].parent == Some(rt) by {
                assert(before_sched.procs@[kids[k] as int].parent == Some(rt));
            }
        }
    }
}

} // verus!

verus! {

impl ProcessManager {
    /// Changing bookkeeping fields that the shape never reads, such as
    /// the exit code or a semaphore counter, keeps the table well formed.
    #[verifier::rlimit(100)]
    proof fn lemma_benign_field_change(&self, pre: Self, slot: usize)
        requires
            pre.wf(),
            pre.ok(slot as int),
            self.procs@.len() == pre.procs@.len(),
            forall|p: int|
                pre.ok(p) && p != slot ==> #[trigger] self.procs@[p] == pre.procs@[p],
            self.procs@[slot as int].state == pre.procs@[slot as int].state,
            self.procs@[slot as int].idle == pre.procs@[slot as int].idle,
            self.procs@[slot as int].guard@ == pre.procs@[slot as int].guard@,
            self.procs@[slot as int].sch_info == pre.procs@[slot as int].sch_info,
            self.procs@[slot as int].first_child@ == pre.procs@[slot as int].first_child@,
            self.procs@[slot as int].parent == pre.procs@[slot as int].parent,
            self.procs@[slot as int].pid == pre.procs@[slot as int].pid,
            self.run_queue@ == pre.run_queue@,
            self.cpus@ == pre.cpus@,
            self.min_vruntime == pre.min_vruntime,
            self.root == pre.root,
        ensures
            self.wf(),
    {
        assert forall|p: int| self.ok(p) implies (#[trigger] self.procs@[p]).state
            == pre.procs@[p].state && self.procs@[p].idle == pre.procs@[p].idle
            && self.procs@[p].sch_info == pre.procs@[p].sch_info && self.procs@[p].guard@
            == pre.procs@[p].guard@ && self.procs@[p].first_child@ == pre.procs@[
            p].first_child@ && self.procs@[p].parent == pre.procs@[p].parent
            && self.procs@[p].pid == pre.procs@[p].pid by {
            if p != slot as int {
                assert(self.procs@[p] == pre.procs@[p]);
            }
        }
        assert forall|k: int| 0 <= k < self.run_queue@.len() - 1 implies rq_le(
            self.procs@,
            #[trigger] self.run_queue@[k],
            self.run_queue@[k + 1],
        ) by {
            assert(rq_le(pre.procs@, self.run_queue@[k], self.run_queue@[k + 1]));
        }
        assert forall|p: int, k: int|
            self.ok(p) && 0 <= k < (#[trigger] self.procs@[p]).first_child@.len() implies self.ok(
            #[trigger] self.procs@[p].first_child@[k] as int,
        ) && self.procs@[self.procs@[p].first_child@[k] as int].parent == Some(
            p as usize,
        ) by {
            assert(self.procs@[p].first_child@ == pre.procs@[p].first_child@);
            assert(pre.ok(pre.procs@[p].first_child@[k] as int));
        }
        assert forall|p: int, a: int, b: int|
            self.ok(p) && 0 <= a < b < (#[trigger] self.procs@[p]).first_child@.len()
                implies (#[trigger] self.procs@[p].first_child@[a]) != (#[trigger] self.procs@[
            p].first_child@[b]) by {
            assert(self.procs@[p].first_child@ == pre.procs@[p].first_child@);
        }
    }
}

} // verus!
verus! {

/// What reaping did: the first dead child left the caller's list, its
/// identifier went back to the pool exactly once, and nothing else moved.
pub open spec fn reaped_effect(
    pre: ProcessManager,
    post: ProcessManager,
    caller: usize,
    pid: usize,
    code: usize,
) -> bool {
    exists|k: int|
        0 <= k < pre.procs@[caller as int].first_child@.len() && {
            let c = #[trigger] pre.procs@[caller as int].first_child@[k];
            &&& pre.procs@[c as int].state == ProcessState::Zombie
            &&& c != caller
            &&& forall|j: int|
                0 <= j < k ==> !(pre.procs@[(#[trigger] pre.procs@[
                    caller as int].first_child@[j]) as int].state == ProcessState::Zombie
                    && pre.procs@[caller as int].first_child@[j] != caller)
            &&& pid == pre.procs@[c as int].pid
            &&& code == pre.procs@[c as int].exit_code
            &&& post.procs@[c as int] == (Process { parent: None, ..pre.procs@[c as int] })
            &&& post.procs@[caller as int].first_child@ == pre.procs@[
                caller as int].first_child@.remove(k)
            &&& post.procs@[caller as int] == (Process {
                first_child: post.procs@[caller as int].first_child,
                child_exit: post.procs@[caller as int].child_exit,
                ..pre.procs@[caller as int]
            })
            &&& forall|p: int|
                pre.ok(p) && p != caller && p != c ==> #[trigger] post.procs@[p]
                    == pre.procs@[p]
            &&& post.pid_free@ == pre.pid_free@.push(pid)
        }
}

impl ProcessManager {
    /// Reaps for `caller`: with no children at all it reports so at once,
    /// without blocking; with children but no dead one the caller would
    /// sleep on its child-exit semaphore; otherwise the first dead child
    /// is detached, its identifier returned to the pool, and its exit code
    /// handed back.
    #[verifier::rlimit(100)]
    #[verifier::spinoff_prover]
    pub fn wait(&mut self, caller: usize) -> (r: WaitOutcome)
        requires
            old(self).wf(),
            old(self).ok(caller as int),
        ensures
            final(self).wf(),
            old(self).procs@[caller as int].first_child@.len() == 0 ==> r
                == WaitOutcome::NoChildren && *final(self) == *old(self),
            (old(self).procs@[caller as int].first_child@.len() > 0 && (forall|k: int|
                0 <= k < old(self).procs@[caller as int].first_child@.len() ==> !(old(
                    self,
                ).procs@[(#[trigger] old(self).procs@[caller as int].first_child@[
                    k]) as int].state == ProcessState::Zombie && old(self).procs@[
                    caller as int].first_child@[k] != caller))) ==> r
                == WaitOutcome::WouldBlock && *final(self) == *old(self),
            (exists|k: int|
                0 <= k < old(self).procs@[caller as int].first_child@.len() && old(self).procs@[
                    (#[trigger] old(self).procs@[caller as int].first_child@[k]) as int].state
                    == ProcessState::Zombie && old(self).procs@[caller as int].first_child@[k]
                    != caller) ==> (r matches WaitOutcome::Reaped(pid, code) && reaped_effect(
                *old(self),
                *final(self),
                caller,
                pid,
                code,
            )),
    {
        let nprocs = self.procs.len();
        let nchildren = self.procs[caller].first_child.len();
        if nchildren == 0 {
            return WaitOutcome::NoChildren;
        }
        // Find the first dead child.
        let mut k: usize = 0;
        let mut found = false;
        while k < nchildren && !found
            invariant
                *self == *old(self),
                self.wf(),
                self.ok(caller as int),
                nchildren == self.procs@[caller as int].first_child@.len(),
                0 <= k <= nchildren,
                forall|j: int|
                    0 <= j < k ==> !(self.procs@[(#[trigger] self.procs@[
                        caller as int].first_child@[j]) as int].state == ProcessState::Zombie
                        && self.procs@[caller as int].first_child@[j] != caller),
                found ==> k < nchildren && self.procs@[(self.procs@[
                    caller as int].first_child@[k as int]) as int].state
                    == ProcessState::Zombie && self.procs@[caller as int].first_child@[
                    k as int] != caller,
            decreases nchildren - k, if found { 0int } else { 1int },
        {
            let c = self.procs[caller].first_child[k];
            if self.procs[c].state == ProcessState::Zombie && c != caller {
                found = true;
            } else {
                k += 1;
            }
        }
        if !found {
            return WaitOutcome::WouldBlock;
        }
        let ghost pre = *self;
        let c = self.procs[caller].first_child[k];
        let pid = self.procs[c].pid;
        let code = self.procs[c].exit_code;
        // Detach the child and give its identifier back.
        let cp = vec_proc_mut(&mut self.procs, caller);
        cp.first_child.remove(k);
        if cp.child_exit > 0 {
            cp.child_exit = cp.child_exit - 1;
        }
        let chp = vec_proc_mut(&mut self.procs, c);
        chp.parent = None;
        self.pid_free.push(pid);
        proof {
            self.lemma_detach_wf(pre, caller, c, k as int);
            assert(reaped_effect(pre, *self, caller, pid, code)) by {
                assert(0 <= k < pre.procs@[caller as int].first_child@.len()
                    && pre.procs@[caller as int].first_child@[k as int] == c);
            }
        }
        WaitOutcome::Reaped(pid, code)
    }

    /// Detaching one child, with only the caller's list and counter and
    /// the child's parent changed, keeps the table's shape.
    #[verifier::rlimit(100)]
    #[verifier::spinoff_prover]
    proof fn lemma_detach_wf(&self, pre: Self, caller: usize, c: usize, k: int)
        requires
            pre.wf(),
            pre.ok(caller as int),
            pre.ok(c as int),
            c != caller,
            0 <= k < pre.procs@[caller as int].first_child@.len(),
            pre.procs@[caller as int].first_child@[k] == c,
            self.procs@.len() == pre.procs@.len(),
            forall|p: int|
                pre.ok(p) && p != caller && p != c ==> #[trigger] self.procs@[p]
                    == pre.procs@[p],
            self.procs@[caller as int] == (Process {
                first_child: self.procs@[caller as int].first_child,
                child_exit: self.procs@[caller as int].child_exit,
                ..pre.procs@[caller as int]
            }),
            self.procs@[caller as int].first_child@ == pre.procs@[
                caller as int].first_child@.remove(k),
            self.procs@[c as int] == (Process { parent: None, ..pre.procs@[c as int] }),
            self.run_queue@ == pre.run_queue@,
            self.cpus@ == pre.cpus@,
            self.min_vruntime == pre.min_vruntime,
            self.root == pre.root,
            pre.procs@.len() <= usize::MAX,
        ensures
            self.wf(),
    {
        let touched = |p: int| p == caller as int || p == c as int;
        assert forall|p: int| self.ok(p) implies (#[trigger] self.procs@[p]).state == pre.procs@[
            p].state && self.procs@[p].idle == pre.procs@[p].idle && self.procs@[p].sch_info
            == pre.procs@[p].sch_info && self.procs@[p].guard@ == pre.procs@[p].guard@
            && self.procs@[p].pid == pre.procs@[p].pid by {
            if !touched(p) {
                assert(self.procs@[p] == pre.procs@[p]);
            }
        }
        assert forall|kk: int| 0 <= kk < self.run_queue@.len() - 1 implies rq_le(
            self.procs@,
            #[trigger] self.run_queue@[kk],
            self.run_queue@[kk + 1],
        ) by {
            assert(rq_le(pre.procs@, self.run_queue@[kk], self.run_queue@[kk + 1]));
        }
        match pre.root {
            Some(rt) => {
                if c == rt {
                    assert(pre.procs@[rt as int].parent == Some(rt));
                    assert(pre.procs@[c as int].parent == Some(caller));
                    assert(false);
                }
            },
            None => {},
        }
        // Child lists still point back at their parents.
        assert forall|p: int, kk: int|
            self.ok(p) && 0 <= kk < (#[trigger] self.procs@[p]).first_child@.len()
                implies self.ok(#[trigger] self.procs@[p].first_child@[kk] as int)
            && self.procs@[self.procs@[p].first_child@[kk] as int].parent == Some(
            p as usize,
        ) by {
            let ch = self.procs@[p].first_child@[kk];
            if p == caller as int {
                let kk0 = if kk < k {
                    kk
                } else {
                    kk + 1
                };
                assert(ch == pre.procs@[caller as int].first_child@[kk0]);
                assert(ch != c) by {
                    if ch == c {
                        pre.lemma_child_unique(caller, kk0, k);
                    }
                }
            } else {
                assert(self.procs@[p].first_child@ == pre.procs@[p].first_child@);
                assert(ch == pre.procs@[p].first_child@[kk]);
                assert(ch != c) by {
                    if ch == c {
                        assert(pre.procs@[c as int].parent == Some(p as usize));
                        assert(pre.procs@[c as int].parent == Some(caller));
                        assert(p as usize == caller);
                        assert((p as usize) as int == p);
                    }
                }
            }
            assert(pre.procs@[ch as int].parent == Some(p as usize));
            if ch == caller {
                assert(self.procs@[ch as int].parent == pre.procs@[ch as int].parent);
            } else {
                assert(self.procs@[ch as int] == pre.procs@[ch as int]);
            }
        }
        // Child lists stay free of repeats.
        assert forall|p: int, a: int, b: int|
            self.ok(p) && 0 <= a < b < (#[trigger] self.procs@[p]).first_child@.len()
                implies (#[trigger] self.procs@[p].first_child@[a]) != (#[trigger] self.procs@[
            p].first_child@[b]) by {
            if p == caller as int {
                let a0 = if a < k {
                    a
                } else {
                    a + 1
                };
                let b0 = if b < k {
                    b
                } else {
                    b + 1
                };
                assert(self.procs@[p].first_child@[a] == pre.procs@[p].first_child@[a0]);
                assert(self.procs@[p].first_child@[b] == pre.procs@[p].first_child@[b0]);
                pre.lemma_child_unique(caller, a0, b0);
            } else {
                assert(self.procs@[p].first_child@ == pre.procs@[p].first_child@);
            }
        }
    }
}

} // verus!
