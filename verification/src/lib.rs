//! Heap-allocation profiling: bookkeeping for an allocator hook that records
//! which call stack is responsible for every live allocation, and a profile
//! encoder that groups the live set into a `pprof`-style document.
//!
//! The library holds the rules; the process-wide pieces (the global
//! allocator registration, the mutex, the per-thread cells and the output
//! file) belong to the embedding program, which hands plain values in and
//! takes plain values back.

pub mod entry;
pub mod live;
pub mod profile_proto;
pub mod profiler;
pub mod record;
pub mod text;

pub use crate::profiler::dump;

use crate::entry::AllocEntry;
use crate::live::{
    after_event, lemma_entered_sizes, lemma_forgotten_sizes, sizes, HookEvent,
};
use crate::profiler::{captured, entered, forgotten, HeapProfiler, ProfilerView};
use vstd::prelude::*;

verus! {

/// The allocator hook. It holds the depth that stacks are captured to, which
/// counts only if this hook is the first to reach the profiler.
pub struct ProfAlloc(pub usize);

/// The profiler once a hook with depth `deep` has reached it: the first
/// hook fixes the depth, a later one changes nothing.
pub open spec fn reached(p: ProfilerView, deep: usize) -> ProfilerView {
    if p.initialized {
        p
    } else {
        ProfilerView { max_deep: deep, initialized: true, table: p.table }
    }
}

impl ProfAlloc {
    /// What the hook does after memory was allocated at `ptr`: an outermost
    /// pass captures the stack and enters the allocation in the table; a
    /// nested pass leaves the profiler alone.
    #[inline(always)]
    pub fn on_alloc(&self, entry: &AllocEntry, profiler: &mut HeapProfiler, ptr: usize, size: usize)
        ensures
            entry.0 != 0 ==> final(profiler)@ == old(profiler)@,
            entry.0 == 0 ==> exists|ips: Seq<usize>|
                final(profiler)@ == entered(
                    reached(old(profiler)@, self.0),
                    ptr,
                    size,
                    #[trigger] captured(ips, reached(old(profiler)@, self.0).max_deep as nat),
                ),
            sizes(final(profiler)@.table) == after_event(
                sizes(old(profiler)@.table),
                HookEvent::Allocate { ptr, size, top: entry.0 == 0 },
            ),
    {
        if !entry.top_entry() {
            return ;
        }
        profiler.init_once(Some(self.0));
        let ghost ready = profiler@;
        profiler.insert(ptr, size);
        proof {
            let ips = choose|ips: Seq<usize>|
                profiler@ == entered(
                    ready,
                    ptr,
                    size,
                    #[trigger] captured(ips, ready.max_deep as nat),
                );
            lemma_entered_sizes(ready, ptr, size, captured(ips, ready.max_deep as nat));
            assert(ready == reached(old(profiler)@, self.0));
            assert(profiler@ == entered(
                reached(old(profiler)@, self.0),
                ptr,
                size,
                captured(ips, reached(old(profiler)@, self.0).max_deep as nat),
            ));
        }
    }

    /// What the hook does after the memory at `ptr` was given back: an
    /// outermost pass forgets the allocation; a nested pass leaves the
    /// profiler alone. Removal is gated exactly as insertion is, so memory
    /// that the profiler's own bookkeeping gives back is never taken for a
    /// tracked address.
    pub fn on_dealloc(&self, entry: &AllocEntry, profiler: &mut HeapProfiler, ptr: usize)
        ensures
            entry.0 != 0 ==> final(profiler)@ == old(profiler)@,
            entry.0 == 0 ==> final(profiler)@ == forgotten(reached(old(profiler)@, self.0), ptr),
            sizes(final(profiler)@.table) == after_event(
                sizes(old(profiler)@.table),
                HookEvent::Deallocate { ptr, top: entry.0 == 0 },
            ),
    {
        if entry.top_entry() {
            profiler.init_once(Some(self.0));
            let ghost ready = profiler@;
            profiler.remove(ptr);
            proof {
                lemma_forgotten_sizes(ready, ptr);
            }
        }
    }
}

} // verus!
