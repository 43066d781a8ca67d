//! The live-allocation table and what surrounds it: the exclusion lock's
//! rules, stack capture, and symbol resolution.

use crate::live::{lemma_listed_sum, listed_sum, sum_of};
use crate::profile_proto::profile_proto::{
    encoded, lemma_profile_strings, profile_bytes, ProfileView,
};
use crate::profile_proto::wire::{EncodeError, MAX_MESSAGE_SIZE};
use crate::profile_proto::writer::{
    finished, fresh, indexable, lemma_dump_locations, lemma_dump_samples, lemma_frames_added,
    lemma_record_strings_bound, located, records_added, room_for, stands_for,
    ProfileProtoWriter,
};
use crate::text::{lemma_pointer_text_injective, pointer_text};
use std::collections::HashMap;
use vstd::prelude::*;
use vstd::std_specs::hash::{spec_hash_map_iter, spec_keys_iter};
use vstd::std_specs::iter::IteratorSpec;

verus! {

/// What one instruction address resolves to. Absent information is held as
/// an empty string or zero.
#[derive(Debug, Clone, PartialEq, Eq)]
pub struct SymbolInfo {
    pub file_name: String,
    pub line_no: u32,
    pub col_no: u32,
    pub name: String,
    pub addr: usize,
}

pub struct SymbolView {
    pub file_name: Seq<char>,
    pub line_no: u32,
    pub col_no: u32,
    pub name: Seq<char>,
    pub addr: usize,
}

impl View for SymbolInfo {
    type V = SymbolView;

    open spec fn view(&self) -> SymbolView {
        SymbolView {
            file_name: self.file_name@,
            line_no: self.line_no,
            col_no: self.col_no,
            name: self.name@,
            addr: self.addr,
        }
    }
}

/// One live allocation with its call stack resolved.
#[derive(Debug, Clone, PartialEq, Eq)]
pub struct AllocSymbolFrames {
    pub ptr: usize,
    pub size: usize,
    pub frames: Vec<SymbolInfo>,
}

pub struct AllocSymbolFramesView {
    pub ptr: usize,
    pub size: usize,
    pub frames: Seq<SymbolView>,
}

impl View for AllocSymbolFrames {
    type V = AllocSymbolFramesView;

    open spec fn view(&self) -> AllocSymbolFramesView {
        AllocSymbolFramesView {
            ptr: self.ptr,
            size: self.size,
            frames: Seq::new(self.frames@.len(), |i: int| self.frames@[i]@),
        }
    }
}

/// How many of the innermost frames of a walk belong to the interception
/// itself and are left out, so that the first frame kept is the caller of
/// the allocation. Counted from the walk outwards they are four: the stack
/// walker, the allocator hook (the capture path `on_alloc`, `insert`,
/// `trace_frames` is inlined into it), the allocator's entry point
/// `__rust_alloc`, and the allocation function `alloc::alloc::alloc`.
pub const SKIPPED_FRAMES: usize = 4;

/// The depth that a profiler captures to until one is supplied.
pub const DEFAULT_MAX_DEEP: usize = 128;

/// What an acquisition of the exclusion lock came to: whether the thread
/// took the lock with it, or held it already.
#[derive(Debug, PartialEq, Eq)]
pub struct LockGuard(pub bool);

impl LockGuard {
    /// Whether this acquisition is the one that took the lock, so that the
    /// caller waits for the process-wide primitive and gives it back on
    /// release.
    pub fn acquired(&self) -> (taken: bool)
        ensures
            taken == self.0,
    {
        self.0
    }

    /// Releases the acquisition. The one that took the lock clears the
    /// thread's flag; a nested one changes nothing.
    pub fn release(self, held: &mut bool)
        requires
            self.0 ==> *old(held),
        ensures
            *final(held) == (!self.0 && *old(held)),
    {
        if self.0 {
            *held = false;
        }
    }
}

/// Collects the frames of one stack walk: leaves out the innermost
/// `SKIPPED_FRAMES`, then keeps frames until it holds `max_deep` of them.
pub struct FrameSink {
    skip: usize,
    max_deep: usize,
    stack: Vec<usize>,
}

pub struct SinkView {
    pub skipped: nat,
    pub max_deep: nat,
    pub stack: Seq<usize>,
}

/// The sink after it was offered the frame at `ip`.
pub open spec fn offered(s: SinkView, ip: usize) -> SinkView {
    if s.skipped < SKIPPED_FRAMES {
        SinkView { skipped: s.skipped + 1, ..s }
    } else if s.stack.len() < s.max_deep {
        SinkView { stack: s.stack.push(ip), ..s }
    } else {
        s
    }
}

/// Whether the walk goes on after the sink was offered a frame.
pub open spec fn wants_more(s: SinkView) -> bool {
    s.skipped < SKIPPED_FRAMES || s.stack.len() + 1 < s.max_deep
}

/// The sink after a walk over `ips`, innermost frame first: each frame is
/// offered in turn until the sink wants no more or the frames end.
pub open spec fn walked(s: SinkView, ips: Seq<usize>) -> SinkView
    decreases ips.len(),
{
    if ips.len() == 0 {
        s
    } else if wants_more(s) {
        walked(offered(s, ips[0]), ips.skip(1))
    } else {
        offered(s, ips[0])
    }
}

/// What a capture keeps of a walk over `ips`: the frames after the first
/// `SKIPPED_FRAMES`, `max_deep` of them at most.
pub open spec fn captured(ips: Seq<usize>, max_deep: nat) -> Seq<usize> {
    if ips.len() <= SKIPPED_FRAMES {
        Seq::<usize>::empty()
    } else if ips.len() - SKIPPED_FRAMES <= max_deep {
        ips.skip(SKIPPED_FRAMES as int)
    } else {
        ips.subrange(SKIPPED_FRAMES as int, SKIPPED_FRAMES + max_deep)
    }
}

impl View for FrameSink {
    type V = SinkView;

    closed spec fn view(&self) -> SinkView {
        SinkView {
            skipped: self.skip as nat,
            max_deep: self.max_deep as nat,
            stack: self.stack@,
        }
    }
}

impl FrameSink {
    /// The sink's invariant: it never leaves out more than
    /// `SKIPPED_FRAMES`, keeps nothing before it has left those out, and
    /// never keeps more than its limit.
    pub open spec fn wf(&self) -> bool {
        &&& self@.skipped <= SKIPPED_FRAMES
        &&& self@.stack.len() <= self@.max_deep
        &&& self@.skipped < SKIPPED_FRAMES ==> self@.stack.len() == 0
    }

    /// An empty sink that keeps `max_deep` frames at most.
    pub fn new(max_deep: usize) -> (sink: FrameSink)
        ensures
            sink.wf(),
            sink@ == (SinkView { skipped: 0, max_deep: max_deep as nat, stack: Seq::empty() }),
    {
        FrameSink { skip: 0, max_deep, stack: Vec::new() }
    }

    /// Offers the sink one frame and answers whether the walk goes on.
    pub fn accept(&mut self, ip: usize) -> (more: bool)
        requires
            old(self).wf(),
        ensures
            final(self).wf(),
            final(self)@ == offered(old(self)@, ip),
            more == wants_more(old(self)@),
    {
        if self.skip < SKIPPED_FRAMES {
            self.skip = self.skip + 1;
            return true;
        }
        if self.stack.len() >= self.max_deep {
            return false;
        }
        self.stack.push(ip);
        self.stack.len() < self.max_deep
    }

    /// The frames that the sink kept, in the order of the walk.
    pub fn into_stack(self) -> (stack: Vec<usize>)
        ensures
            stack@ == self@.stack,
    {
        self.stack
    }
}

/// A walk from an empty sink keeps the frames after the first
/// `SKIPPED_FRAMES`, and `max_deep` of them at most.
pub proof fn lemma_walk_captures(ips: Seq<usize>, max_deep: nat)
    ensures
        walked(SinkView { skipped: 0, max_deep, stack: Seq::empty() }, ips).stack == captured(
            ips,
            max_deep,
        ),
        captured(ips, max_deep).len() <= max_deep,
{
    lemma_walk_from(SinkView { skipped: 0, max_deep, stack: Seq::empty() }, ips);
    assert(Seq::<usize>::empty() + captured(ips, max_deep) =~= captured(ips, max_deep));
}

/// A walk from a sound sink first leaves out what is still to be left out,
/// then keeps frames up to the limit.
proof fn lemma_walk_from(s: SinkView, ips: Seq<usize>)
    requires
        s.skipped <= SKIPPED_FRAMES,
        s.stack.len() <= s.max_deep,
    ensures
        walked(s, ips).stack == s.stack + kept(s, ips),
    decreases ips.len(),
{
    if ips.len() == 0 {
        assert(s.stack + kept(s, ips) =~= s.stack);
    } else if wants_more(s) {
        let next = offered(s, ips[0]);
        lemma_walk_from(next, ips.skip(1));
        if s.skipped < SKIPPED_FRAMES {
            assert(kept(next, ips.skip(1)) =~= kept(s, ips));
        } else {
            assert(next.stack + kept(next, ips.skip(1)) =~= s.stack + kept(s, ips));
        }
    } else {
        assert(offered(s, ips[0]).stack =~= s.stack + kept(s, ips));
    }
}

/// What a sink in state `s` keeps of `ips`.
spec fn kept(s: SinkView, ips: Seq<usize>) -> Seq<usize> {
    let left_out = SKIPPED_FRAMES - s.skipped;
    let room = s.max_deep - s.stack.len();
    if ips.len() <= left_out {
        Seq::<usize>::empty()
    } else if ips.len() - left_out <= room {
        ips.skip(left_out)
    } else {
        ips.subrange(left_out, left_out + room)
    }
}

/// `backtrace::Symbol`, what a resolution offers: carried through, never
/// looked into.
#[verifier::external_type_specification]
#[verifier::external_body]
pub struct ExResolvedSymbol(backtrace::Symbol);

/// What `backtrace::Symbol::addr` answers for `symbol`, as a number.
pub uninterp spec fn symbol_addr_of(symbol: backtrace::Symbol) -> Option<usize>;

/// What `backtrace::Symbol::filename` answers for `symbol`, as text.
pub uninterp spec fn symbol_file_of(symbol: backtrace::Symbol) -> Option<Seq<char>>;

/// What `backtrace::Symbol::lineno` answers for `symbol`.
pub uninterp spec fn symbol_line_of(symbol: backtrace::Symbol) -> Option<u32>;

/// What `backtrace::Symbol::colno` answers for `symbol`.
pub uninterp spec fn symbol_column_of(symbol: backtrace::Symbol) -> Option<u32>;

/// What `backtrace::Symbol::name` answers for `symbol`, as text.
pub uninterp spec fn symbol_name_of(symbol: backtrace::Symbol) -> Option<Seq<char>>;

/// `backtrace::Symbol::lineno`: the line a symbol stands at, if known. The
/// answer depends on the symbol alone.
pub assume_specification[ backtrace::Symbol::lineno ](symbol: &backtrace::Symbol) -> (line: Option<
    u32,
>)
    ensures
        line == symbol_line_of(*symbol),
;

/// `backtrace::Symbol::colno`: the column a symbol stands at, if known. The
/// answer depends on the symbol alone.
pub assume_specification[ backtrace::Symbol::colno ](symbol: &backtrace::Symbol) -> (column: Option<
    u32,
>)
    ensures
        column == symbol_column_of(*symbol),
;

/// `backtrace::Symbol::addr`: the address at which the symbol's function
/// begins, if known, as a number. The answer depends on the symbol alone.
#[verifier::external_body]
fn symbol_addr(symbol: &backtrace::Symbol) -> (addr: Option<usize>)
    ensures
        addr == symbol_addr_of(*symbol),
{
    symbol.addr().map(|p| p as usize)
}

/// `backtrace::Symbol::filename`: the file in which the symbol's function
/// is defined, if known, as text; bytes of the path that are not UTF-8 are
/// replaced. The answer depends on the symbol alone.
#[verifier::external_body]
fn symbol_file_name(symbol: &backtrace::Symbol) -> (file_name: Option<String>)
    ensures
        text_of(file_name) == symbol_file_of(*symbol),
{
    symbol.filename().map(|p| p.to_string_lossy().into_owned())
}

/// `backtrace::Symbol::name`: the demangled name of the symbol's function,
/// if known, as text. The answer depends on the symbol alone.
#[verifier::external_body]
fn symbol_name(symbol: &backtrace::Symbol) -> (name: Option<String>)
    ensures
        text_of(name) == symbol_name_of(*symbol),
{
    symbol.name().map(|n| n.to_string())
}

/// What a resolved symbol reads as: its address, file, line, column and
/// name, each empty or zero where the symbol does not know it.
pub open spec fn symbol_read(symbol: backtrace::Symbol) -> SymbolView {
    symbol_of(
        symbol_addr_of(symbol),
        symbol_file_of(symbol),
        symbol_line_of(symbol),
        symbol_column_of(symbol),
        symbol_name_of(symbol),
    )
}

/// `backtrace::trace`: walks the calling thread's stack, innermost frame
/// first, and offers `sink` the instruction address of each frame until the
/// sink wants no more or the frames end. Which frames the stack holds is
/// not claimed: only that the sink ends as a walk over some frames leaves
/// it.
#[verifier::external_body]
#[inline(always)]
fn walk_stack(sink: &mut FrameSink)
    requires
        old(sink).wf(),
    ensures
        exists|ips: Seq<usize>| final(sink)@ == walked(old(sink)@, ips),
{
    backtrace::trace(|frame| sink.accept(frame.ip() as usize));
}

/// `backtrace::resolve`: looks up the symbols that stand at `addr` and
/// offers each to `keep_first`. Whether any is found depends on the debug
/// information at hand, so nothing is claimed of the answer.
#[verifier::external_body]
fn resolve_first(addr: usize) -> (found: Option<SymbolInfo>) {
    let mut found: Option<SymbolInfo> = None;
    backtrace::resolve(
        std::ptr::with_exposed_provenance_mut(addr),
        |symbol| keep_first(&mut found, symbol),
    );
    found
}

/// The symbol that is made of the parts that were found; a part that is
/// absent is empty or zero.
pub open spec fn symbol_of(
    addr: Option<usize>,
    file_name: Option<Seq<char>>,
    line_no: Option<u32>,
    col_no: Option<u32>,
    name: Option<Seq<char>>,
) -> SymbolView {
    SymbolView {
        file_name: match file_name {
            Some(text) => text,
            None => Seq::empty(),
        },
        line_no: match line_no {
            Some(n) => n,
            None => 0,
        },
        col_no: match col_no {
            Some(n) => n,
            None => 0,
        },
        name: match name {
            Some(text) => text,
            None => Seq::empty(),
        },
        addr: match addr {
            Some(a) => a,
            None => 0,
        },
    }
}

/// The text of an optional string.
pub open spec fn text_of(s: Option<String>) -> Option<Seq<char>> {
    match s {
        Some(text) => Some(text@),
        None => None,
    }
}

impl SymbolInfo {
    /// Makes a symbol of the parts that a resolution found.
    pub fn from_parts(
        addr: Option<usize>,
        file_name: Option<String>,
        line_no: Option<u32>,
        col_no: Option<u32>,
        name: Option<String>,
    ) -> (symbol: SymbolInfo)
        ensures
            symbol@ == symbol_of(addr, text_of(file_name), line_no, col_no, text_of(name)),
    {
        SymbolInfo {
            addr: match addr {
                Some(a) => a,
                None => 0,
            },
            file_name: match file_name {
                Some(text) => text,
                None => String::new(),
            },
            line_no: match line_no {
                Some(n) => n,
                None => 0,
            },
            col_no: match col_no {
                Some(n) => n,
                None => 0,
            },
            name: match name {
                Some(text) => text,
                None => String::new(),
            },
        }
    }

    /// Reads a resolved symbol into plain values: its address, file name,
    /// line, column and name, each as the symbol answers it, and empty or
    /// zero where the symbol does not know it.
    pub fn from(value: &backtrace::Symbol) -> (symbol: SymbolInfo)
        ensures
            symbol@ == symbol_read(*value),
    {
        SymbolInfo::from_parts(
            symbol_addr(value),
            symbol_file_name(value),
            value.lineno(),
            value.colno(),
            symbol_name(value),
        )
    }
}

/// Keeps the first symbol that a resolution offers, read into plain
/// values, and passes over the others.
pub fn keep_first(found: &mut Option<SymbolInfo>, symbol: &backtrace::Symbol)
    ensures
        *old(found) is Some ==> *final(found) == *old(found),
        *old(found) is None ==> *final(found) is Some && (*final(found))->0@ == symbol_read(
            *symbol,
        ),
{
    if found.is_none() {
        *found = Some(SymbolInfo::from(symbol));
    }
}

/// What stands for a frame that resolves to nothing: its address, and
/// everything else empty or zero.
pub open spec fn unresolved(addr: usize) -> SymbolView {
    symbol_of(Some(addr), None, None, None, None)
}

/// What stands for the frame at `addr`, given what the resolver found for
/// it: the symbol found, or the unresolved frame.
pub open spec fn resolved_as(addr: usize, found: Option<SymbolInfo>) -> SymbolView {
    match found {
        Some(symbol) => symbol@,
        None => unresolved(addr),
    }
}

/// Whether `symbols` are what `known` holds for `addrs`, one for one.
pub open spec fn resolved_by(
    known: Map<usize, SymbolView>,
    addrs: Seq<usize>,
    symbols: Seq<SymbolView>,
) -> bool {
    &&& symbols.len() == addrs.len()
    &&& forall|i: int|
        0 <= i < addrs.len() ==> known.contains_key(#[trigger] addrs[i]) && symbols[i]
            == known[addrs[i]]
}

/// The views of a vector of symbols.
pub open spec fn symbol_views(symbols: Seq<SymbolInfo>) -> Seq<SymbolView> {
    Seq::new(symbols.len(), |i: int| symbols[i]@)
}

impl SymbolInfo {
    /// A copy of the symbol.
    pub fn duplicate(&self) -> (copy: SymbolInfo)
        ensures
            copy@ == self@,
    {
        SymbolInfo {
            file_name: self.file_name.clone(),
            line_no: self.line_no,
            col_no: self.col_no,
            name: self.name.clone(),
            addr: self.addr,
        }
    }

    /// The symbol that stands for the frame at `addr`, given what the
    /// resolver found for it. A miss is no error: it is held as the frame's
    /// address with an empty name and file and with line and column zero.
    pub fn found_or_miss(addr: usize, found: Option<SymbolInfo>) -> (symbol: SymbolInfo)
        ensures
            symbol@ == resolved_as(addr, found),
    {
        match found {
            Some(symbol) => symbol,
            None => SymbolInfo::from_parts(Some(addr), None, None, None, None),
        }
    }
}

/// The symbols resolved so far in one dump, by instruction address, so that
/// stacks that share a call site resolve it once.
pub struct SymbolCache {
    known: HashMap<usize, SymbolInfo>,
}

impl View for SymbolCache {
    type V = Map<usize, SymbolView>;

    closed spec fn view(&self) -> Map<usize, SymbolView> {
        self.known@.map_values(|symbol: SymbolInfo| symbol@)
    }
}

impl SymbolCache {
    /// A cache that knows no address.
    pub fn new() -> (cache: SymbolCache)
        ensures
            cache@ == Map::<usize, SymbolView>::empty(),
    {
        let cache = SymbolCache { known: HashMap::new() };
        assert(cache@ =~= Map::<usize, SymbolView>::empty());
        cache
    }

    /// How many addresses the cache knows.
    pub fn len(&self) -> (n: usize)
        ensures
            n == self@.dom().len(),
    {
        broadcast use vstd::std_specs::hash::group_hash_axioms;

        assert(self.known@.dom() =~= self@.dom());
        self.known.len()
    }

    /// The symbol that the cache holds for `addr`, if it knows the address.
    pub fn get(&self, addr: usize) -> (symbol: Option<SymbolInfo>)
        ensures
            match symbol {
                Some(symbol) => self@.contains_key(addr) && symbol@ == self@[addr],
                None => !self@.contains_key(addr),
            },
    {
        broadcast use vstd::std_specs::hash::group_hash_axioms;

        match self.known.get(&addr) {
            Some(symbol) => Some(symbol.duplicate()),
            None => None,
        }
    }

    /// Settles what stands for the frame at `addr`, given what the resolver
    /// found for it: an address that the cache knows keeps its symbol, a
    /// new one is entered. Returns the symbol that now stands for it.
    pub fn settle(&mut self, addr: usize, found: Option<SymbolInfo>) -> (symbol: SymbolInfo)
        ensures
            old(self)@.contains_key(addr) ==> final(self)@ == old(self)@,
            !old(self)@.contains_key(addr) ==> final(self)@ == old(self)@.insert(
                addr,
                resolved_as(addr, found),
            ),
            symbol@ == final(self)@[addr],
    {
        broadcast use vstd::std_specs::hash::group_hash_axioms;

        match self.get(addr) {
            Some(symbol) => symbol,
            None => {
                let symbol = SymbolInfo::found_or_miss(addr, found);
                self.known.insert(addr, symbol.duplicate());
                assert(self@ =~= old(self)@.insert(addr, symbol@));
                symbol
            },
        }
    }
}

/// What the table holds of one live allocation: its size in bytes and the
/// instruction addresses of the stack that made it.
#[derive(Debug, Clone, PartialEq, Eq)]
pub struct AllocFrames {
    pub size: usize,
    pub frames: Vec<usize>,
}

pub struct AllocFramesView {
    pub size: usize,
    pub frames: Seq<usize>,
}

impl View for AllocFrames {
    type V = AllocFramesView;

    open spec fn view(&self) -> AllocFramesView {
        AllocFramesView { size: self.size, frames: self.frames@ }
    }
}

/// The live-allocation table with the depth that stacks are captured to.
pub struct HeapProfiler {
    max_deep: usize,
    initialized: bool,
    frames: HashMap<usize, AllocFrames>,
}

pub struct ProfilerView {
    pub max_deep: usize,
    pub initialized: bool,
    pub table: Map<usize, AllocFramesView>,
}

impl View for HeapProfiler {
    type V = ProfilerView;

    closed spec fn view(&self) -> ProfilerView {
        ProfilerView {
            max_deep: self.max_deep,
            initialized: self.initialized,
            table: self.frames@.map_values(|f: AllocFrames| f@),
        }
    }
}

/// The addresses of `recs`, in order.
pub open spec fn addresses_of(recs: Seq<AllocSymbolFramesView>) -> Seq<usize> {
    Seq::new(recs.len(), |i: int| recs[i].ptr)
}

/// Whether the same instruction address stands as the same symbol wherever
/// it occurs in the stacks of `recs`.
pub open spec fn resolved_alike(
    table: Map<usize, AllocFramesView>,
    recs: Seq<AllocSymbolFramesView>,
) -> bool {
    forall|i: int, j: int, k: int, l: int|
        0 <= i < recs.len() && 0 <= k < recs.len() && 0 <= j < recs[i].frames.len() && 0 <= l
            < recs[k].frames.len() && table[recs[i].ptr].frames[j] == table[recs[k].ptr].frames[l]
            ==> #[trigger] recs[i].frames[j] == #[trigger] recs[k].frames[l]
}

/// Whether `recs` is a snapshot of `table`: one record for each live
/// address and no other, each with its recorded size and with one symbol
/// for each frame that was captured.
pub open spec fn snapshot_of(
    table: Map<usize, AllocFramesView>,
    recs: Seq<AllocSymbolFramesView>,
) -> bool {
    &&& addresses_of(recs).no_duplicates()
    &&& addresses_of(recs).to_set() == table.dom()
    &&& forall|i: int|
        0 <= i < recs.len() ==> {
            &&& table.contains_key(#[trigger] recs[i].ptr)
            &&& recs[i].size == table[recs[i].ptr].size
            &&& recs[i].frames.len() == table[recs[i].ptr].frames.len()
        }
}

/// How many frames the table holds for each live allocation.
pub open spec fn frame_counts(table: Map<usize, AllocFramesView>) -> Map<usize, nat> {
    table.map_values(|f: AllocFramesView| f.frames.len())
}

/// How many frames the table holds in all.
pub open spec fn total_frames(table: Map<usize, AllocFramesView>) -> nat {
    sum_of(frame_counts(table))
}

/// The profiler after the allocation at `ptr` was entered with its size and
/// stack: the entry stands in place of whatever was held for that address.
pub open spec fn entered(p: ProfilerView, ptr: usize, size: usize, frames: Seq<usize>) -> ProfilerView {
    ProfilerView { table: p.table.insert(ptr, AllocFramesView { size, frames }), ..p }
}

/// The profiler after the allocation at `ptr` was forgotten.
pub open spec fn forgotten(p: ProfilerView, ptr: usize) -> ProfilerView {
    ProfilerView { table: p.table.remove(ptr), ..p }
}

impl HeapProfiler {
    /// A profiler that tracks nothing and awaits its depth.
    pub fn new() -> (profiler: HeapProfiler)
        ensures
            profiler@.max_deep == DEFAULT_MAX_DEEP,
            !profiler@.initialized,
            profiler@.table == Map::<usize, AllocFramesView>::empty(),
    {
        let profiler = HeapProfiler {
            max_deep: DEFAULT_MAX_DEEP,
            initialized: false,
            frames: HashMap::new(),
        };
        assert(profiler@.table =~= Map::<usize, AllocFramesView>::empty());
        profiler
    }

    /// Fixes the capture depth on the first call; every later call changes
    /// nothing, whatever depth it asks for.
    pub fn init_once(&mut self, max_deep: Option<usize>)
        requires
            old(self)@.initialized || max_deep is Some,
        ensures
            old(self)@.initialized ==> final(self)@ == old(self)@,
            !old(self)@.initialized ==> final(self)@ == (ProfilerView {
                max_deep: max_deep->0,
                initialized: true,
                table: old(self)@.table,
            }),
    {
        if !self.initialized {
            match max_deep {
                Some(deep) => {
                    self.max_deep = deep;
                },
                None => {},
            }
            self.initialized = true;
        }
    }

    /// Whether the capture depth is fixed.
    pub fn is_initialized(&self) -> (done: bool)
        ensures
            done == self@.initialized,
    {
        self.initialized
    }

    /// The depth that stacks are captured to.
    pub fn max_deep(&self) -> (deep: usize)
        ensures
            deep == self@.max_deep,
    {
        self.max_deep
    }

    /// The table holds finitely many allocations.
    pub proof fn lemma_table_finite(&self)
        ensures
            self@.table.dom().finite(),
    {
        broadcast use vstd::std_specs::hash::group_hash_axioms;

        assert(self.frames@.dom() =~= self@.table.dom());
    }

    /// How many allocations are live.
    pub fn len(&self) -> (n: usize)
        ensures
            n == self@.table.dom().len(),
    {
        broadcast use vstd::std_specs::hash::group_hash_axioms;

        assert(self.frames@.dom() =~= self@.table.dom());
        self.frames.len()
    }

    /// Acquires the exclusion lock for the thread whose flag is `held`. A
    /// thread that holds the lock gets a nested acquisition at once; another
    /// one marks itself as holder and is told to take the lock.
    pub fn lock(held: &mut bool) -> (guard: LockGuard)
        ensures
            guard.0 == !*old(held),
            *final(held),
    {
        if *held {
            return LockGuard(false);
        }
        *held = true;
        LockGuard(true)
    }

    /// Captures the calling thread's stack to the profiler's depth.
    #[inline(always)]
    pub fn trace_frames(&self) -> (stack: Vec<usize>)
        ensures
            exists|ips: Seq<usize>| stack@ == captured(ips, self@.max_deep as nat),
    {
        let mut sink = FrameSink::new(self.max_deep);
        let ghost empty = sink@;
        walk_stack(&mut sink);
        proof {
            let ips = choose|ips: Seq<usize>| sink@ == walked(empty, ips);
            assert(sink@ == walked(empty, ips));
            lemma_walk_captures(ips, self.max_deep as nat);
            assert(sink@.stack == captured(ips, self@.max_deep as nat));
        }
        sink.into_stack()
    }

    /// Resolves each instruction address to the symbol that stands for it,
    /// one for one and in order: the first symbol found for it, or the
    /// unresolved frame. An address that `cache` knows is not looked up
    /// again, and every address looked up is entered in `cache`.
    pub fn resolve_frames(&self, cache: &mut SymbolCache, f: &[usize]) -> (symbols: Vec<
        SymbolInfo,
    >)
        ensures
            symbols@.len() == f@.len(),
            resolved_by(final(cache)@, f@, symbol_views(symbols@)),
            old(cache)@.submap_of(final(cache)@),
            forall|addr: usize|
                final(cache)@.contains_key(addr) ==> old(cache)@.contains_key(addr) || f@.contains(
                    addr,
                ),
    {
        let mut symbols: Vec<SymbolInfo> = Vec::new();
        let mut i: usize = 0;
        while i < f.len()
            invariant
                i <= f.len(),
                symbols@.len() == i,
                resolved_by(cache@, f@.take(i as int), symbol_views(symbols@)),
                old(cache)@.submap_of(cache@),
                forall|addr: usize|
                    cache@.contains_key(addr) ==> old(cache)@.contains_key(addr) || f@.contains(
                        addr,
                    ),
            decreases f.len() - i,
        {
            let addr = f[i];
            let ghost before = cache@;
            let ghost held = symbol_views(symbols@);
            let symbol = match cache.get(addr) {
                Some(symbol) => symbol,
                None => cache.settle(addr, resolve_first(addr)),
            };
            symbols.push(symbol);
            proof {
                assert(before.submap_of(cache@));
                let grown = symbol_views(symbols@);
                assert forall|k: int| 0 <= k < i + 1 implies cache@.contains_key(
                    #[trigger] f@.take(i + 1)[k],
                ) && grown[k] == cache@[f@.take(i + 1)[k]] by {
                    if k < i {
                        assert(f@.take(i as int)[k] == f@[k]);
                        assert(before.contains_key(f@.take(i as int)[k]));
                        assert(grown[k] == held[k]);
                    }
                }
            }
            i += 1;
        }
        assert(f@.take(f.len() as int) =~= f@);
        symbols
    }

    /// Enters the allocation at `ptr` with its size and stack, in place of
    /// whatever the table held for that address.
    pub fn record(&mut self, ptr: usize, size: usize, frames: Vec<usize>)
        ensures
            final(self)@ == entered(old(self)@, ptr, size, frames@),
    {
        broadcast use vstd::std_specs::hash::group_hash_axioms;

        self.frames.insert(ptr, AllocFrames { size, frames });
        assert(self@.table =~= old(self)@.table.insert(
            ptr,
            AllocFramesView { size, frames: frames@ },
        ));
    }

    /// Captures the calling thread's stack and enters the allocation at
    /// `ptr` with it.
    #[inline(always)]
    pub fn insert(&mut self, ptr: usize, size: usize)
        ensures
            exists|ips: Seq<usize>|
                final(self)@ == entered(
                    old(self)@,
                    ptr,
                    size,
                    #[trigger] captured(ips, old(self)@.max_deep as nat),
                ),
    {
        let frames = self.trace_frames();
        self.record(ptr, size, frames);
    }

    /// Forgets the allocation at `ptr`; an address that is not tracked
    /// changes nothing.
    pub fn remove(&mut self, ptr: usize)
        ensures
            final(self)@ == forgotten(old(self)@, ptr),
    {
        broadcast use vstd::std_specs::hash::group_hash_axioms;

        self.frames.remove(&ptr);
        assert(self@.table =~= old(self)@.table.remove(ptr));
    }

    /// What the table holds for `ptr`, if it is live.
    pub fn get(&self, ptr: usize) -> (entry: Option<&AllocFrames>)
        ensures
            match entry {
                Some(frames) => self@.table.contains_key(ptr) && frames@ == self@.table[ptr],
                None => !self@.table.contains_key(ptr),
            },
    {
        broadcast use vstd::std_specs::hash::group_hash_axioms;

        self.frames.get(&ptr)
    }

    /// Every live allocation, each once, in no particular order: its
    /// address and what the table holds for it.
    pub fn snapshot(&self) -> (entries: Vec<(usize, &AllocFrames)>)
        ensures
            entries@.len() == self@.table.dom().len(),
            Seq::new(entries@.len(), |i: int| entries@[i].0).no_duplicates(),
            Seq::new(entries@.len(), |i: int| entries@[i].0).to_set() == self@.table.dom(),
            forall|i: int|
                0 <= i < entries@.len() ==> self@.table.contains_key((#[trigger] entries@[i]).0)
                    && entries@[i].1@ == self@.table[entries@[i].0],
    {
        broadcast use vstd::std_specs::hash::group_hash_axioms;

        let mut entries: Vec<(usize, &AllocFrames)> = Vec::new();
        let ghost all = spec_hash_map_iter(&self.frames).remaining();
        assert(self.frames@.dom() =~= self@.table.dom());
        for entry in it: self.frames.iter()
            invariant
                it.seq() == all,
                all == spec_hash_map_iter(&self.frames).remaining(),
                all.no_duplicates(),
                entries@.len() == it.index(),
                forall|i: int|
                    0 <= i < entries@.len() ==> (#[trigger] entries@[i]).0 == *all[i].0
                        && *entries@[i].1 == *all[i].1,
        {
            entries.push((*entry.0, entry.1));
        }
        proof {
            let keys = Seq::new(entries@.len(), |i: int| entries@[i].0);
            assert forall|i: int, j: int| 0 <= i < keys.len() && 0 <= j < keys.len() && i != j
            implies keys[i] != keys[j] by {
                assert(self.frames@[*all[i].0] == *all[i].1);
                assert(self.frames@[*all[j].0] == *all[j].1);
                assert(entries@[i].0 == *all[i].0);
                assert(entries@[j].0 == *all[j].0);
                if keys[i] == keys[j] {
                    assert(all[i] == all[j]);
                }
            }
            assert forall|ptr: usize| keys.to_set().contains(ptr) implies self@.table.dom().contains(
                ptr,
            ) by {
                let at = keys.index_of(ptr);
                assert(keys[at] == ptr);
                assert(entries@[at].0 == *all[at].0);
                assert(self.frames@.contains_key(*all[at].0));
            }
            assert forall|ptr: usize| self@.table.dom().contains(ptr) implies keys.to_set().contains(
                ptr,
            ) by {
                assert(self.frames@.contains_key(ptr));
                assert(all.contains((&ptr, &self.frames@[ptr])));
                let at = all.index_of((&ptr, &self.frames@[ptr]));
                assert(all[at] == (&ptr, &self.frames@[ptr]));
                assert(entries@[at].0 == ptr);
                assert(keys[at] == ptr);
            }
            assert(keys.to_set() =~= self@.table.dom());
            assert forall|i: int| 0 <= i < entries@.len() implies self@.table.contains_key(
                (#[trigger] entries@[i]).0,
            ) && entries@[i].1@ == self@.table[entries@[i].0] by {
                assert(self.frames@[*all[i].0] == *all[i].1);
                assert(entries@[i].0 == *all[i].0);
            }
        }
        entries
    }

    /// The live addresses, each once, in no particular order.
    pub fn addresses(&self) -> (ptrs: Vec<usize>)
        ensures
            ptrs@.no_duplicates(),
            ptrs@.to_set() == self@.table.dom(),
    {
        broadcast use vstd::std_specs::hash::group_hash_axioms;

        let mut ptrs: Vec<usize> = Vec::new();
        let ghost all: Seq<usize> = spec_keys_iter(&self.frames).remaining().unref();
        assert(all.to_set() == self.frames@.dom());
        assert(all.no_duplicates()) by {
            let refs = spec_keys_iter(&self.frames).remaining();
            assert forall|i: int, j: int| 0 <= i < all.len() && 0 <= j < all.len() && i != j
            implies all[i] != all[j] by {
                assert(refs[i] != refs[j]);
            }
        }
        for ptr in it: self.frames.keys()
            invariant
                it.seq().unref() == all,
                ptrs@ == all.take(it.index() as int),
        {
            ptrs.push(*ptr);
            assert(ptrs@ =~= all.take(it.index() + 1));
        }
        assert(all.take(all.len() as int) =~= all);
        assert(self.frames@.dom() =~= self@.table.dom());
        ptrs
    }
}

impl HeapProfiler {
    /// Adds every live allocation to `writer`, in no particular order, each
    /// with its stack resolved; an instruction address is resolved once and
    /// stands as the same symbol in every stack. Succeeds whenever the
    /// writer's tables can take all the allocations and frames that the
    /// table holds, and answers `TooLarge` only when they cannot.
    pub fn write_symbol_frames(&self, writer: &mut ProfileProtoWriter) -> (r: Result<
        (),
        EncodeError,
    >)
        requires
            old(writer).wf(),
        ensures
            final(writer).wf(),
            room_for(old(writer)@, total_frames(self@.table), self@.table.dom().len()) ==> r is Ok,
            match r {
                Ok(_) => exists|recs: Seq<AllocSymbolFramesView>|
                    snapshot_of(self@.table, recs) && resolved_alike(self@.table, recs)
                        && final(writer)@ == #[trigger] records_added(old(writer)@, recs),
                Err(e) => e == EncodeError::TooLarge,
            },
    {
        broadcast use vstd::std_specs::hash::group_hash_axioms;

        let entries = self.snapshot();
        let mut cache = SymbolCache::new();
        let ghost ptrs = Seq::new(entries@.len(), |i: int| entries@[i].0);
        let ghost counts = frame_counts(self@.table);
        let ghost mut recs: Seq<AllocSymbolFramesView> = Seq::empty();
        let mut i: usize = 0;
        proof {
            assert(addresses_of(recs) =~= ptrs.take(0));
            assert(ptrs.skip(0) =~= ptrs);
            assert(counts.dom() =~= self@.table.dom());
            assert(self.frames@.dom() =~= self@.table.dom());
            lemma_listed_sum(counts, ptrs);
        }
        while i < entries.len()
            invariant
                writer.wf(),
                i <= entries.len(),
                ptrs == Seq::new(entries@.len(), |i: int| entries@[i].0),
                ptrs.no_duplicates(),
                ptrs.to_set() == self@.table.dom(),
                forall|j: int|
                    0 <= j < entries@.len() ==> self@.table.contains_key(
                        (#[trigger] entries@[j]).0,
                    ) && entries@[j].1@ == self@.table[entries@[j].0],
                counts == frame_counts(self@.table),
                addresses_of(recs) == ptrs.take(i as int),
                recs.len() == i,
                forall|j: int|
                    0 <= j < recs.len() ==> {
                        &&& self@.table.contains_key(#[trigger] recs[j].ptr)
                        &&& recs[j].size == self@.table[recs[j].ptr].size
                        &&& resolved_by(cache@, self@.table[recs[j].ptr].frames, recs[j].frames)
                    },
                writer@ == records_added(old(writer)@, recs),
                entries@.len() == self@.table.dom().len(),
                room_for(old(writer)@, total_frames(self@.table), self@.table.dom().len())
                    ==> room_for(
                    writer@,
                    listed_sum(counts, ptrs.skip(i as int)),
                    (entries@.len() - i) as nat,
                ),
            decreases entries.len() - i,
        {
            let ptr = entries[i].0;
            let alloc_frame = entries[i].1;
            let ghost known = cache@;
            let frames = self.resolve_frames(&mut cache, alloc_frame.frames.as_slice());
            let rec = AllocSymbolFrames { frames, size: alloc_frame.size, ptr };
            let ghost view = rec@;
            let ghost before = writer@;
            proof {
                assert(ptrs[i as int] == ptr);
                assert(view.frames =~= symbol_views(rec.frames@));
                assert(ptrs.skip(i as int)[0] == ptr);
                assert(ptrs.skip(i as int).skip(1) =~= ptrs.skip(i + 1));
                assert(counts[ptr] == self@.table[ptr].frames.len());
                lemma_frames_added(before, view.frames);
                lemma_record_strings_bound(before, view);
            }
            match writer.write_symbol_frame(rec) {
                Ok(_) => {},
                Err(e) => {
                    return Err(e);
                },
            }
            proof {
                let grown = recs.push(view);
                assert(grown.drop_last() =~= recs);
                assert(addresses_of(grown) =~= ptrs.take(i + 1));
                assert forall|j: int| 0 <= j < grown.len() implies resolved_by(
                    cache@,
                    self@.table[(#[trigger] grown[j]).ptr].frames,
                    grown[j].frames,
                ) by {
                    if j < recs.len() {
                        assert(grown[j] == recs[j]);
                        assert(resolved_by(known, self@.table[recs[j].ptr].frames, recs[j].frames));
                        assert(known.submap_of(cache@));
                    }
                }
                recs = grown;
            }
            i += 1;
        }
        proof {
            assert(ptrs.take(ptrs.len() as int) =~= ptrs);
            assert forall|a: int, j: int, k: int, l: int|
                0 <= a < recs.len() && 0 <= k < recs.len() && 0 <= j < recs[a].frames.len() && 0
                    <= l < recs[k].frames.len() && self@.table[recs[a].ptr].frames[j]
                    == self@.table[recs[k].ptr].frames[l] implies #[trigger] recs[a].frames[j]
                == #[trigger] recs[k].frames[l] by {
                assert(resolved_by(cache@, self@.table[recs[a].ptr].frames, recs[a].frames));
                assert(resolved_by(cache@, self@.table[recs[k].ptr].frames, recs[k].frames));
            }
        }
        Ok(())
    }
}

/// Encodes the live allocations of `profiler` as a profile document: one
/// sample per live allocation, in no particular order. Where a new
/// writer's tables can take all the allocations and frames that the
/// profiler holds, the answer is decided by the document of the snapshot
/// that was taken: `Ok` with its bytes if it is no longer than
/// `MAX_MESSAGE_SIZE`, `TooLarge` if it is longer. How long the document is
/// depends on the names that the frames resolve to. Where the tables cannot
/// take them, the answer is `TooLarge`.
pub fn dump(profiler: &HeapProfiler) -> (r: Result<Vec<u8>, EncodeError>)
    ensures
        room_for(fresh(), total_frames(profiler@.table), profiler@.table.dom().len())
            ==> exists|recs: Seq<AllocSymbolFramesView>|
            snapshot_of(profiler@.table, recs) && resolved_alike(profiler@.table, recs)
                && encoded(r, profile_bytes(#[trigger] document_of(recs))),
        match r {
            Ok(bytes) => exists|recs: Seq<AllocSymbolFramesView>|
                snapshot_of(profiler@.table, recs) && resolved_alike(profiler@.table, recs)
                    && bytes@ == profile_bytes(#[trigger] document_of(recs)) && bytes@.len()
                    <= MAX_MESSAGE_SIZE && indexable(document_of(recs).string_table.len())
                    && document_of(recs).location.len() <= MAX_MESSAGE_SIZE,
            Err(EncodeError::TooLarge) => !room_for(
                fresh(),
                total_frames(profiler@.table),
                profiler@.table.dom().len(),
            ) || (exists|recs: Seq<AllocSymbolFramesView>|
                snapshot_of(profiler@.table, recs) && profile_bytes(
                    #[trigger] document_of(recs),
                ).len() > MAX_MESSAGE_SIZE),
            Err(EncodeError::Stream) => false,
        },
{
    let mut writer = ProfileProtoWriter::new();
    match profiler.write_symbol_frames(&mut writer) {
        Ok(_) => {},
        Err(e) => {
            return Err(e);
        },
    }
    let ghost recs = choose|recs: Seq<AllocSymbolFramesView>|
        snapshot_of(profiler@.table, recs) && resolved_alike(profiler@.table, recs) && writer@
            == #[trigger] records_added(fresh(), recs);
    let r = writer.flush();
    proof {
        lemma_profile_strings(document_of(recs));
        assert(snapshot_of(profiler@.table, recs) && resolved_alike(profiler@.table, recs)
            && encoded(r, profile_bytes(document_of(recs))));
        if r is Ok {
            assert(snapshot_of(profiler@.table, recs) && resolved_alike(profiler@.table, recs)
                && r->Ok_0@ == profile_bytes(document_of(recs)) && indexable(
                document_of(recs).string_table.len(),
            ) && document_of(recs).location.len() <= MAX_MESSAGE_SIZE);
        } else {
            assert(snapshot_of(profiler@.table, recs) && profile_bytes(document_of(recs)).len()
                > MAX_MESSAGE_SIZE);
        }
    }
    r
}

/// The document of a snapshot: what a dump encodes when it walks the live
/// allocations in the order of `recs`.
pub open spec fn document_of(recs: Seq<AllocSymbolFramesView>) -> ProfileView {
    finished(records_added(fresh(), recs))
}

/// The text of the label of sample `i` in `doc`.
pub open spec fn label_text(doc: ProfileView, i: int) -> Seq<char> {
    doc.string_table[doc.sample[i].label[0].str as int]
}

/// The document of a snapshot holds one sample for each live allocation,
/// each with the allocation's size as its value, the allocation's address
/// as its label, and one location for each captured frame, every one of
/// them an entry of the location table; and no two samples share a label.
pub proof fn lemma_snapshot_samples(
    table: Map<usize, AllocFramesView>,
    recs: Seq<AllocSymbolFramesView>,
)
    requires
        table.dom().finite(),
        snapshot_of(table, recs),
        indexable(document_of(recs).string_table.len()),
        document_of(recs).location.len() <= u64::MAX,
    ensures
        document_of(recs).sample.len() == table.dom().len(),
        forall|i: int|
            0 <= i < recs.len() ==> stands_for(
                document_of(recs).string_table,
                #[trigger] document_of(recs).sample[i],
                recs[i],
            ) && recs[i].size == table[recs[i].ptr].size && document_of(
                recs,
            ).sample[i].location_id.len() == table[recs[i].ptr].frames.len() && located(
                document_of(recs).location,
                document_of(recs).sample[i],
            ),
        forall|i: int, j: int|
            0 <= i < recs.len() && 0 <= j < recs.len() && i != j ==> label_text(
                document_of(recs),
                i,
            ) != label_text(document_of(recs), j),
{
    lemma_dump_samples(recs);
    lemma_dump_locations(recs);
    addresses_of(recs).unique_seq_to_set();
    assert forall|i: int, j: int| 0 <= i < recs.len() && 0 <= j < recs.len() && i != j implies label_text(
        document_of(recs),
        i,
    ) != label_text(document_of(recs), j) by {
        assert(stands_for(document_of(recs).string_table, document_of(recs).sample[i], recs[i]));
        assert(stands_for(document_of(recs).string_table, document_of(recs).sample[j], recs[j]));
        assert(addresses_of(recs)[i] != addresses_of(recs)[j]);
        lemma_pointer_text_injective(recs[i].ptr, recs[j].ptr);
    }
}

/// An allocation that was forgotten is in no snapshot taken afterwards, and
/// the document of such a snapshot holds no sample with its label.
pub proof fn lemma_removed_not_sampled(
    p: ProfilerView,
    ptr: usize,
    recs: Seq<AllocSymbolFramesView>,
)
    requires
        snapshot_of(forgotten(p, ptr).table, recs),
        indexable(document_of(recs).string_table.len()),
    ensures
        forall|i: int| 0 <= i < recs.len() ==> (#[trigger] recs[i]).ptr != ptr,
        forall|i: int|
            0 <= i < document_of(recs).sample.len() ==> #[trigger] label_text(document_of(recs), i)
                != pointer_text(ptr),
{
    lemma_dump_samples(recs);
    assert forall|i: int| 0 <= i < recs.len() implies (#[trigger] recs[i]).ptr != ptr by {
        assert(forgotten(p, ptr).table.contains_key(recs[i].ptr));
    }
    assert forall|i: int| 0 <= i < document_of(recs).sample.len() implies #[trigger] label_text(
        document_of(recs),
        i,
    ) != pointer_text(ptr) by {
        assert(stands_for(document_of(recs).string_table, document_of(recs).sample[i], recs[i]));
        assert(recs[i].ptr != ptr);
        lemma_pointer_text_injective(recs[i].ptr, ptr);
    }
}

} // verus!
