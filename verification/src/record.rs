//! The reentrancy guard and the exclusion lock in one step: a pass through
//! the hook that, when it is the outermost one on its thread, also takes the
//! process-wide lock.

use vstd::prelude::*;

verus! {

/// One pass through the hook: the thread's nesting depth when it began, and
/// whether the pass took the lock.
pub struct AllocRecord(pub usize, pub bool);

impl AllocRecord {
    /// A pass takes the lock exactly when it is the outermost one.
    pub open spec fn wf(&self) -> bool {
        self.1 == (self.0 == 0)
    }

    /// Whether this pass is the outermost one on its thread.
    pub fn top_entry(&self) -> (top: bool)
        ensures
            top == (self.0 == 0),
    {
        self.0 == 0
    }

    /// Whether this pass took the lock, so that the caller waits for the
    /// process-wide primitive and gives it back when the pass ends.
    pub fn locked(&self) -> (taken: bool)
        ensures
            taken == self.1,
    {
        self.1
    }

    /// Ends the pass: lowers the thread's nesting depth by one.
    pub fn release(self, entries: &mut usize)
        requires
            *old(entries) > 0,
        ensures
            *final(entries) == *old(entries) - 1,
    {
        *entries = *entries - 1;
    }
}

/// Where passes through the hook begin.
pub struct AllocEntry;

impl AllocEntry {
    /// Begins a pass on the thread whose nesting depth is `entries`: raises
    /// the depth by one, and takes the lock if no pass was under way. A
    /// nested pass never takes the lock, so it never waits.
    pub fn record(&self, entries: &mut usize) -> (rec: AllocRecord)
        requires
            *old(entries) < usize::MAX,
        ensures
            rec.wf(),
            rec.0 == *old(entries),
            *final(entries) == *old(entries) + 1,
    {
        let current: usize = *entries;
        *entries = current + 1;
        if current > 0 {
            return AllocRecord(current, false);
        }
        AllocRecord(current, true)
    }
}

} // verus!
