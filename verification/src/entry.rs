//! Reentrancy guard: tells the outermost pass through the allocator hook on a
//! thread from the passes that the hook's own bookkeeping causes.

use vstd::prelude::*;

verus! {

/// One pass through the hook on the current thread. It remembers how many
/// passes were already under way on that thread when it began.
pub struct AllocEntry(pub usize);

impl AllocEntry {
    /// Begins a pass: records the thread's nesting depth and raises it by one.
    pub fn new(depth: &mut usize) -> (entry: AllocEntry)
        requires
            *old(depth) < usize::MAX,
        ensures
            entry.0 == *old(depth),
            *final(depth) == *old(depth) + 1,
    {
        let before: usize = *depth;
        *depth = before + 1;
        AllocEntry(before)
    }

    /// Whether this pass is the outermost one on its thread.
    pub fn top_entry(&self) -> (top: bool)
        ensures
            top == (self.0 == 0),
    {
        self.0 == 0
    }

    /// Ends the pass: lowers the thread's nesting depth by one.
    pub fn leave(self, depth: &mut usize)
        requires
            *old(depth) > 0,
        ensures
            *final(depth) == *old(depth) - 1,
    {
        *depth = *depth - 1;
    }
}

} // verus!
