//! Counting semaphores with an explicit wait list: waiters are recorded
//! when the count runs out and woken last-in first-out, each wakeup
//! appended to a list the scheduler's caller drains.

use vstd::prelude::*;

verus! {

/// What taking the semaphore ended as.
pub enum SemOutcome {
    /// A unit was available; the caller holds it.
    Got,
    /// No unit was available; the caller sleeps on the wait list.
    Blocked,
}

/// A counting semaphore. A negative value counts the sleepers.
pub struct Semaphore {
    /// Units available (positive) or sleepers outstanding (negative).
    pub value: i64,
    /// The sleeping processes, oldest first; the newest is woken first.
    pub sleep_list: Vec<usize>,
    /// Processes woken by posts, in wake order, not yet collected.
    pub woken: Vec<usize>,
}

impl Semaphore {
    /// The sleeper count matches the value whenever the value is negative.
    pub open spec fn wf(self) -> bool {
        &&& self.value < 0 ==> self.sleep_list@.len() == -self.value
        &&& self.value >= 0 ==> self.sleep_list@.len() == 0
    }

    /// A semaphore holding `value` units and no sleepers.
    pub fn uninit(value: i64) -> (r: Self)
        requires
            value >= 0,
        ensures
            r.wf(),
            r.value == value,
            r.sleep_list@.len() == 0,
            r.woken@.len() == 0,
    {
        Semaphore { value, sleep_list: Vec::new(), woken: Vec::new() }
    }

    /// Nothing is left to set up.
    pub fn init(&mut self)
        ensures
            *final(self) == *old(self),
    {
    }

    /// Takes a unit only if one is free: true exactly when the value was
    /// positive, which then drops by one.
    pub fn try_get(&mut self) -> (r: bool)
        requires
            old(self).wf(),
        ensures
            final(self).wf(),
            r == (old(self).value > 0),
            r ==> final(self).value == old(self).value - 1,
            !r ==> *final(self) == *old(self),
            final(self).sleep_list@ == old(self).sleep_list@,
            final(self).woken@ == old(self).woken@,
    {
        if self.value > 0 {
            self.value = self.value - 1;
            true
        } else {
            false
        }
    }

    /// Takes a unit or sleeps: the value always drops by one, and a caller
    /// that finds none free joins the wait list.
    pub fn get_or_wait(&mut self, pid: usize) -> (r: SemOutcome)
        requires
            old(self).wf(),
            old(self).value > i64::MIN,
        ensures
            final(self).wf(),
            final(self).value == old(self).value - 1,
            final(self).woken@ == old(self).woken@,
            old(self).value > 0 ==> r == SemOutcome::Got && final(self).sleep_list@ == old(
                self,
            ).sleep_list@,
            old(self).value <= 0 ==> r == SemOutcome::Blocked && final(self).sleep_list@ == old(
                self,
            ).sleep_list@.push(pid),
    {
        self.value = self.value - 1;
        if self.value >= 0 {
            SemOutcome::Got
        } else {
            self.sleep_list.push(pid);
            SemOutcome::Blocked
        }
    }

    /// Gives a sleeper up waiting, as a killed process does: it leaves the
    /// wait list and the unit it asked for is not taken after all.
    pub fn cancel(&mut self, pid: usize)
        requires
            old(self).wf(),
            old(self).value < 0,
            old(self).sleep_list@.len() > 0,
            old(self).sleep_list@.last() == pid,
        ensures
            final(self).wf(),
            final(self).value == old(self).value + 1,
            final(self).sleep_list@ == old(self).sleep_list@.drop_last(),
            final(self).woken@ == old(self).woken@,
    {
        self.value = self.value + 1;
        self.sleep_list.pop();
    }

    /// Posts a unit: the value always grows by one, and if anyone was
    /// sleeping the newest sleeper is woken — exactly one wakeup per post.
    pub fn post(&mut self)
        requires
            old(self).wf(),
            old(self).value < i64::MAX,
        ensures
            final(self).wf(),
            final(self).value == old(self).value + 1,
            old(self).value < 0 ==> final(self).sleep_list@ == old(self).sleep_list@.drop_last()
                && final(self).woken@ == old(self).woken@.push(old(self).sleep_list@.last()),
            old(self).value >= 0 ==> final(self).sleep_list@ == old(self).sleep_list@
                && final(self).woken@ == old(self).woken@,
    {
        let had_sleeper = self.value < 0;
        self.value = self.value + 1;
        if had_sleeper {
            match self.sleep_list.pop() {
                Some(pid) => {
                    self.woken.push(pid);
                },
                None => {
                    proof {
                        assert(false);
                    }
                },
            }
        }
    }

    /// Atomically takes every free unit: returns the old value when it was
    /// positive, leaving zero, and 0 otherwise, leaving everything as is.
    pub fn try_get_all(&mut self) -> (r: i64)
        requires
            old(self).wf(),
        ensures
            final(self).wf(),
            old(self).value > 0 ==> r == old(self).value && final(self).value == 0,
            old(self).value <= 0 ==> r == 0 && *final(self) == *old(self),
            final(self).sleep_list@ == old(self).sleep_list@,
            final(self).woken@ == old(self).woken@,
    {
        if self.value > 0 {
            let v = self.value;
            self.value = 0;
            v
        } else {
            0
        }
    }
}

} // verus!
