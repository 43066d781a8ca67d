//! Live-set accounting: what the table holds after any run of allocate and
//! deallocate events, and what its sizes add up to.

use crate::profiler::{entered, forgotten, AllocFramesView, ProfilerView};
use vstd::prelude::*;

verus! {

/// One pass through the allocator hook. `top` tells whether the pass was
/// the outermost one on its thread.
pub enum HookEvent {
    Allocate { ptr: usize, size: usize, top: bool },
    Deallocate { ptr: usize, top: bool },
}

/// The recorded sizes of a table, by address.
pub open spec fn sizes(table: Map<usize, AllocFramesView>) -> Map<usize, nat> {
    table.map_values(|f: AllocFramesView| f.size as nat)
}

/// The recorded sizes after one event: an outermost allocation enters its
/// size, an outermost deallocation forgets its address, and a nested pass
/// changes nothing.
pub open spec fn after_event(live: Map<usize, nat>, event: HookEvent) -> Map<usize, nat> {
    match event {
        HookEvent::Allocate { ptr, size, top } => if top {
            live.insert(ptr, size as nat)
        } else {
            live
        },
        HookEvent::Deallocate { ptr, top } => if top {
            live.remove(ptr)
        } else {
            live
        },
    }
}

/// The recorded sizes after a run of events on an empty table.
pub open spec fn replayed(events: Seq<HookEvent>) -> Map<usize, nat>
    decreases events.len(),
{
    if events.len() == 0 {
        Map::<usize, nat>::empty()
    } else {
        after_event(replayed(events.drop_last()), events.last())
    }
}

/// The size of the allocation at `ptr` that was made at top level and not
/// freed at top level since, if there is one: the last outermost event on
/// that address decides.
pub open spec fn live_size(events: Seq<HookEvent>, ptr: usize) -> Option<nat>
    decreases events.len(),
{
    if events.len() == 0 {
        None
    } else {
        match events.last() {
            HookEvent::Allocate { ptr: at, size, top } => if top && at == ptr {
                Some(size as nat)
            } else {
                live_size(events.drop_last(), ptr)
            },
            HookEvent::Deallocate { ptr: at, top } => if top && at == ptr {
                None
            } else {
                live_size(events.drop_last(), ptr)
            },
        }
    }
}

/// The allocations made and not yet freed at top level, with their sizes.
pub open spec fn live_set(events: Seq<HookEvent>) -> Map<usize, nat> {
    Map::new(|ptr: usize| live_size(events, ptr) is Some, |ptr: usize| live_size(events, ptr)->0)
}

/// The sum of the numbers that a finite map holds.
pub open spec fn sum_of(live: Map<usize, nat>) -> nat
    decreases live.dom().len(),
    when live.dom().finite()
    via sum_of_decreases
{
    if live.dom().len() == 0 {
        0
    } else {
        let ptr = live.dom().choose();
        live[ptr] + sum_of(live.remove(ptr))
    }
}

#[via_fn]
proof fn sum_of_decreases(live: Map<usize, nat>) {
    if live.dom().len() != 0 {
        let ptr = live.dom().choose();
        vstd::set_lib::axiom_is_empty_len0(live.dom());
        assert(live.dom().contains(ptr));
        assert(live.remove(ptr).dom() =~= live.dom().remove(ptr));
    }
}

/// The sum of a map's numbers is the number at any one address plus the sum
/// of the rest.
pub proof fn lemma_sum_split(live: Map<usize, nat>, ptr: usize)
    requires
        live.dom().finite(),
        live.contains_key(ptr),
    ensures
        sum_of(live) == live[ptr] + sum_of(live.remove(ptr)),
    decreases live.dom().len(),
{
    let first = live.dom().choose();
    assert(live.dom().len() != 0) by {
        vstd::set_lib::axiom_is_empty_len0(live.dom());
    }
    assert(live.dom().contains(first));
    if first != ptr {
        assert(live.remove(first).dom() =~= live.dom().remove(first));
        assert(live.remove(ptr).dom() =~= live.dom().remove(ptr));
        lemma_sum_split(live.remove(first), ptr);
        lemma_sum_split(live.remove(ptr), first);
        assert(live.remove(first).remove(ptr) =~= live.remove(ptr).remove(first));
    }
}

/// Entering a size adds it to the sum, in place of the size that was held
/// for that address, if there was one.
pub proof fn lemma_sum_insert(live: Map<usize, nat>, ptr: usize, size: nat)
    requires
        live.dom().finite(),
    ensures
        sum_of(live.insert(ptr, size)) + (if live.contains_key(ptr) {
            live[ptr]
        } else {
            0
        }) == sum_of(live) + size,
{
    let grown = live.insert(ptr, size);
    assert(grown.dom() =~= live.dom().insert(ptr));
    lemma_sum_split(grown, ptr);
    assert(grown.remove(ptr) =~= live.remove(ptr));
    if live.contains_key(ptr) {
        lemma_sum_split(live, ptr);
    } else {
        assert(live.remove(ptr) =~= live);
    }
}

/// Forgetting an address takes its size from the sum; an address that is
/// not held changes nothing.
pub proof fn lemma_sum_remove(live: Map<usize, nat>, ptr: usize)
    requires
        live.dom().finite(),
    ensures
        sum_of(live.remove(ptr)) + (if live.contains_key(ptr) {
            live[ptr]
        } else {
            0
        }) == sum_of(live),
{
    if live.contains_key(ptr) {
        lemma_sum_split(live, ptr);
    } else {
        assert(live.remove(ptr) =~= live);
    }
}

/// The sum of the numbers that a map holds at `keys`, taken in order.
pub open spec fn listed_sum(live: Map<usize, nat>, keys: Seq<usize>) -> nat
    decreases keys.len(),
{
    if keys.len() == 0 {
        0
    } else {
        live[keys[0]] + listed_sum(live, keys.skip(1))
    }
}

/// A sum over listed addresses does not depend on what the map holds
/// elsewhere.
proof fn lemma_listed_sum_local(a: Map<usize, nat>, b: Map<usize, nat>, keys: Seq<usize>)
    requires
        forall|i: int| 0 <= i < keys.len() ==> a[keys[i]] == b[keys[i]],
    ensures
        listed_sum(a, keys) == listed_sum(b, keys),
    decreases keys.len(),
{
    if keys.len() > 0 {
        lemma_listed_sum_local(a, b, keys.skip(1));
    }
}

/// Walking a map's addresses, each once and in any order, sums what the map
/// holds.
pub proof fn lemma_listed_sum(live: Map<usize, nat>, keys: Seq<usize>)
    requires
        live.dom().finite(),
        keys.no_duplicates(),
        keys.to_set() == live.dom(),
    ensures
        listed_sum(live, keys) == sum_of(live),
    decreases keys.len(),
{
    if keys.len() == 0 {
        assert(live.dom() =~= Set::<usize>::empty());
    } else {
        let first = keys[0];
        let rest = keys.skip(1);
        let others = live.remove(first);
        assert(keys.to_set().contains(first));
        assert(others.dom() =~= live.dom().remove(first));
        assert(rest.to_set() =~= others.dom()) by {
            assert forall|ptr: usize| rest.to_set().contains(ptr) implies others.dom().contains(
                ptr,
            ) by {
                let at = rest.index_of(ptr);
                assert(rest[at] == ptr);
                assert(keys[at + 1] == ptr);
                assert(keys.to_set().contains(ptr));
            }
            assert forall|ptr: usize| others.dom().contains(ptr) implies rest.to_set().contains(
                ptr,
            ) by {
                assert(keys.to_set().contains(ptr));
                let at = keys.index_of(ptr);
                assert(keys[at] == ptr);
                assert(rest[at - 1] == ptr);
            }
        }
        lemma_listed_sum(others, rest);
        lemma_listed_sum_local(others, live, rest);
        lemma_sum_split(live, first);
    }
}

/// After any run of allocate and deallocate events the table holds exactly
/// the allocations made and not yet freed at top level, each with its size,
/// so the recorded sizes add up to the sizes of those allocations.
pub proof fn lemma_live_set_accounting(events: Seq<HookEvent>)
    ensures
        replayed(events) == live_set(events),
        replayed(events).dom().finite(),
        sum_of(replayed(events)) == sum_of(live_set(events)),
    decreases events.len(),
{
    if events.len() == 0 {
        assert(replayed(events) =~= live_set(events));
    } else {
        lemma_live_set_accounting(events.drop_last());
        assert(replayed(events) =~= live_set(events));
    }
}

/// Entering an allocation in the table is an outermost allocate event.
pub proof fn lemma_entered_sizes(p: ProfilerView, ptr: usize, size: usize, frames: Seq<usize>)
    ensures
        sizes(entered(p, ptr, size, frames).table) == after_event(
            sizes(p.table),
            HookEvent::Allocate { ptr, size, top: true },
        ),
{
    assert(sizes(entered(p, ptr, size, frames).table) =~= sizes(p.table).insert(ptr, size as nat));
}

/// Forgetting an allocation is an outermost deallocate event.
pub proof fn lemma_forgotten_sizes(p: ProfilerView, ptr: usize)
    ensures
        sizes(forgotten(p, ptr).table) == after_event(
            sizes(p.table),
            HookEvent::Deallocate { ptr, top: true },
        ),
{
    assert(sizes(forgotten(p, ptr).table) =~= sizes(p.table).remove(ptr));
}

} // verus!
