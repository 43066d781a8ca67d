use prof_mem::entry::AllocEntry;
use prof_mem::profile_proto::writer::ProfileProtoWriter;
use prof_mem::profiler::{
    dump, keep_first, AllocFrames, FrameSink, HeapProfiler, SymbolCache, SymbolInfo,
    DEFAULT_MAX_DEEP, SKIPPED_FRAMES,
};
use prof_mem::ProfAlloc;

fn walk(max_deep: usize, ips: &[usize]) -> Vec<usize> {
    let mut sink = FrameSink::new(max_deep);
    for ip in ips {
        if !sink.accept(*ip) {
            break;
        }
    }
    sink.into_stack()
}

#[test]
fn sink_skips_the_innermost_frames() {
    assert_eq!(SKIPPED_FRAMES, 4);
    assert_eq!(walk(16, &[1, 2, 3, 4, 5, 6, 7]), vec![5, 6, 7]);
}

#[test]
fn sink_keeps_nothing_of_a_short_walk() {
    assert_eq!(walk(16, &[]), Vec::<usize>::new());
    assert_eq!(walk(16, &[1, 2, 3]), Vec::<usize>::new());
    assert_eq!(walk(16, &[1, 2, 3, 4]), Vec::<usize>::new());
}

#[test]
fn sink_stops_at_its_depth() {
    assert_eq!(walk(2, &[1, 2, 3, 4, 5, 6, 7, 8]), vec![5, 6]);
    assert_eq!(walk(1, &[1, 2, 3, 4, 5, 6, 7, 8]), vec![5]);
    assert_eq!(walk(0, &[1, 2, 3, 4, 5, 6, 7, 8]), Vec::<usize>::new());
}

#[test]
fn sink_answers_whether_the_walk_goes_on() {
    let mut sink = FrameSink::new(2);
    assert!(sink.accept(10));
    assert!(sink.accept(11));
    assert!(sink.accept(12));
    assert!(sink.accept(13));
    assert!(sink.accept(14));
    assert!(!sink.accept(15));
    assert!(!sink.accept(16));
    assert_eq!(sink.into_stack(), vec![14, 15]);
}

#[test]
fn new_profiler_awaits_its_depth() {
    let profiler = HeapProfiler::new();
    assert!(!profiler.is_initialized());
    assert_eq!(profiler.max_deep(), DEFAULT_MAX_DEEP);
    assert_eq!(profiler.max_deep(), 128);
    assert_eq!(profiler.len(), 0);
    assert!(profiler.addresses().is_empty());
}

#[test]
fn first_depth_wins() {
    let mut profiler = HeapProfiler::new();
    profiler.init_once(Some(16));
    assert!(profiler.is_initialized());
    assert_eq!(profiler.max_deep(), 16);
    profiler.init_once(Some(32));
    assert_eq!(profiler.max_deep(), 16);
    profiler.init_once(None);
    assert_eq!(profiler.max_deep(), 16);
}

#[test]
fn record_overwrites_the_entry_of_a_reused_address() {
    let mut profiler = HeapProfiler::new();
    profiler.record(0x10, 8, vec![1, 2]);
    profiler.record(0x20, 16, vec![3]);
    profiler.record(0x10, 32, vec![4]);
    assert_eq!(profiler.len(), 2);
    assert_eq!(profiler.get(0x10), Some(&AllocFrames { size: 32, frames: vec![4] }));
    assert_eq!(profiler.get(0x20), Some(&AllocFrames { size: 16, frames: vec![3] }));
    let mut addresses = profiler.addresses();
    addresses.sort();
    assert_eq!(addresses, vec![0x10, 0x20]);
}

#[test]
fn remove_of_an_unknown_address_changes_nothing() {
    let mut profiler = HeapProfiler::new();
    profiler.record(0x10, 8, vec![1]);
    profiler.remove(0x99);
    assert_eq!(profiler.len(), 1);
    profiler.remove(0x10);
    assert_eq!(profiler.len(), 0);
    assert_eq!(profiler.get(0x10), None);
    profiler.remove(0x10);
    assert_eq!(profiler.len(), 0);
}

#[test]
fn captured_stack_is_bounded_by_the_depth() {
    let mut profiler = HeapProfiler::new();
    profiler.init_once(Some(3));
    let stack = profiler.trace_frames();
    assert!(!stack.is_empty());
    assert!(stack.len() <= 3);
    for ip in stack {
        assert_ne!(ip, 0);
    }
}

#[test]
fn captured_stack_of_depth_zero_is_empty() {
    let mut profiler = HeapProfiler::new();
    profiler.init_once(Some(0));
    assert!(profiler.trace_frames().is_empty());
}

#[test]
fn deeper_capture_extends_a_shallower_one() {
    let mut shallow = HeapProfiler::new();
    shallow.init_once(Some(1));
    let mut deep = HeapProfiler::new();
    deep.init_once(Some(64));
    assert_eq!(shallow.trace_frames().len(), 1);
    assert!(deep.trace_frames().len() > 1);
}

#[test]
fn insert_captures_a_stack() {
    let mut profiler = HeapProfiler::new();
    profiler.init_once(Some(16));
    profiler.insert(0x1000, 128);
    assert_eq!(profiler.len(), 1);
    let entry = profiler.get(0x1000).unwrap();
    assert_eq!(entry.size, 128);
    assert!(!entry.frames.is_empty());
    assert!(entry.frames.len() <= 16);
}

fn unresolved(addr: usize) -> SymbolInfo {
    SymbolInfo { file_name: String::new(), line_no: 0, col_no: 0, name: String::new(), addr }
}

#[test]
fn resolution_gives_one_symbol_per_address() {
    let mut profiler = HeapProfiler::new();
    profiler.init_once(Some(8));
    let stack = profiler.trace_frames();
    let mut cache = SymbolCache::new();
    let symbols = profiler.resolve_frames(&mut cache, &stack);
    assert_eq!(symbols.len(), stack.len());
    assert!(symbols.iter().any(|s| !s.name.is_empty()));
}

#[test]
fn address_that_resolves_to_nothing_is_kept_with_empty_fields() {
    let profiler = HeapProfiler::new();
    let mut cache = SymbolCache::new();
    assert_eq!(profiler.resolve_frames(&mut cache, &[0]), vec![unresolved(0)]);
    assert_eq!(profiler.resolve_frames(&mut cache, &[1, 0, 2]), vec![
        unresolved(1),
        unresolved(0),
        unresolved(2)
    ]);
    assert!(profiler.resolve_frames(&mut cache, &[]).is_empty());
    assert_eq!(cache.len(), 3);
}

#[test]
fn unresolved_frames_stand_among_resolved_ones_in_order() {
    let mut profiler = HeapProfiler::new();
    profiler.init_once(Some(4));
    let stack = profiler.trace_frames();
    assert!(!stack.is_empty());
    let mut mixed: Vec<usize> = vec![0];
    mixed.extend(stack.iter());
    mixed.push(1);
    let mut cache = SymbolCache::new();
    let alone = profiler.resolve_frames(&mut cache, &stack);
    let among = profiler.resolve_frames(&mut SymbolCache::new(), &mixed);
    assert_eq!(among.len(), stack.len() + 2);
    assert_eq!(among[0], unresolved(0));
    assert_eq!(among[among.len() - 1], unresolved(1));
    assert_eq!(&among[1..among.len() - 1], &alone[..]);
}

#[test]
fn an_address_is_resolved_once_per_cache() {
    let mut profiler = HeapProfiler::new();
    profiler.init_once(Some(4));
    let stack = profiler.trace_frames();
    let mut twice: Vec<usize> = stack.clone();
    twice.extend(stack.iter());
    let mut cache = SymbolCache::new();
    let symbols = profiler.resolve_frames(&mut cache, &twice);
    assert_eq!(symbols.len(), 2 * stack.len());
    assert_eq!(&symbols[..stack.len()], &symbols[stack.len()..]);
    let mut distinct = stack.clone();
    distinct.sort();
    distinct.dedup();
    assert_eq!(cache.len(), distinct.len());
    for (ip, symbol) in stack.iter().zip(symbols.iter()) {
        assert_eq!(cache.get(*ip).as_ref(), Some(symbol));
    }
}

#[test]
fn cache_keeps_the_first_answer_for_an_address() {
    let mut cache = SymbolCache::new();
    assert_eq!(cache.len(), 0);
    assert_eq!(cache.get(0x40), None);
    let first = SymbolInfo::from_parts(Some(0x40), None, Some(7), None, Some("f".to_string()));
    let second = SymbolInfo::from_parts(Some(0x40), None, Some(9), None, Some("g".to_string()));
    assert_eq!(cache.settle(0x40, Some(first.clone())), first);
    assert_eq!(cache.settle(0x40, Some(second)), first);
    assert_eq!(cache.settle(0x40, None), first);
    assert_eq!(cache.settle(0x50, None), unresolved(0x50));
    assert_eq!(cache.settle(0x50, Some(first.clone())), unresolved(0x50));
    assert_eq!(cache.len(), 2);
    assert_eq!(cache.get(0x40), Some(first));
}

#[test]
fn found_symbol_stands_for_its_frame_and_a_miss_is_no_error() {
    let found = SymbolInfo::from_parts(Some(0x10), None, None, None, Some("a".to_string()));
    assert_eq!(SymbolInfo::found_or_miss(0x11, Some(found.clone())), found);
    assert_eq!(SymbolInfo::found_or_miss(0x11, None), unresolved(0x11));
    assert_eq!(found.duplicate(), found);
}

fn expected_reading(symbol: &backtrace::Symbol) -> SymbolInfo {
    SymbolInfo {
        file_name: symbol
            .filename()
            .map(|p| p.to_string_lossy().into_owned())
            .unwrap_or_default(),
        line_no: symbol.lineno().unwrap_or_default(),
        col_no: symbol.colno().unwrap_or_default(),
        name: symbol.name().map(|n| n.to_string()).unwrap_or_default(),
        addr: symbol.addr().map(|p| p as usize).unwrap_or_default(),
    }
}

#[test]
fn resolved_symbol_reads_as_the_outside_symbol_answers() {
    let mut profiler = HeapProfiler::new();
    profiler.init_once(Some(8));
    let stack = profiler.trace_frames();
    let mut read: Vec<SymbolInfo> = Vec::new();
    for ip in &stack {
        backtrace::resolve(std::ptr::with_exposed_provenance_mut(*ip), |symbol| {
            let info = SymbolInfo::from(symbol);
            assert_eq!(info, expected_reading(symbol));
            read.push(info);
        });
    }
    assert!(read.iter().any(|s| !s.name.is_empty()
        && !s.file_name.is_empty()
        && s.name != s.file_name
        && s.line_no != 0
        && s.line_no != s.col_no));
}

#[test]
fn first_symbol_offered_is_kept() {
    let mut profiler = HeapProfiler::new();
    profiler.init_once(Some(8));
    let stack = profiler.trace_frames();
    let mut offered = 0;
    for ip in &stack {
        let mut found: Option<SymbolInfo> = None;
        let mut first: Option<SymbolInfo> = None;
        backtrace::resolve(std::ptr::with_exposed_provenance_mut(*ip), |symbol| {
            if first.is_none() {
                first = Some(expected_reading(symbol));
            }
            keep_first(&mut found, symbol);
            assert_eq!(found, first);
            offered += 1;
        });
        let mut cache = SymbolCache::new();
        let resolved = profiler.resolve_frames(&mut cache, &[*ip]);
        match first {
            Some(symbol) => assert_eq!(resolved, vec![symbol]),
            None => assert_eq!(resolved, vec![unresolved(*ip)]),
        }
    }
    assert!(offered > 0);
}

#[test]
fn absent_parts_of_a_symbol_are_empty_or_zero() {
    let symbol = SymbolInfo::from_parts(None, None, None, None, None);
    assert_eq!(
        symbol,
        SymbolInfo { file_name: String::new(), line_no: 0, col_no: 0, name: String::new(), addr: 0 }
    );
}

#[test]
fn present_parts_of_a_symbol_are_kept() {
    let symbol = SymbolInfo::from_parts(
        Some(0x4000),
        Some("src/main.rs".to_string()),
        Some(12),
        Some(5),
        Some("main".to_string()),
    );
    assert_eq!(
        symbol,
        SymbolInfo {
            file_name: "src/main.rs".to_string(),
            line_no: 12,
            col_no: 5,
            name: "main".to_string(),
            addr: 0x4000,
        }
    );
}

#[test]
fn snapshot_holds_every_live_allocation_once() {
    let mut profiler = HeapProfiler::new();
    profiler.record(0x10, 8, vec![1, 2]);
    profiler.record(0x20, 16, vec![3]);
    profiler.record(0x10, 32, vec![4]);
    let mut entries: Vec<(usize, AllocFrames)> =
        profiler.snapshot().into_iter().map(|(ptr, held)| (ptr, held.clone())).collect();
    entries.sort_by_key(|entry| entry.0);
    assert_eq!(entries, vec![
        (0x10, AllocFrames { size: 32, frames: vec![4] }),
        (0x20, AllocFrames { size: 16, frames: vec![3] }),
    ]);
    assert!(HeapProfiler::new().snapshot().is_empty());
}

#[test]
fn unresolved_frames_become_locations_too() {
    let mut profiler = HeapProfiler::new();
    profiler.record(0x10, 8, vec![1, 2, 1]);
    let mut writer = ProfileProtoWriter::new();
    assert_eq!(profiler.write_symbol_frames(&mut writer), Ok(()));
    let profile = writer.finish();
    assert_eq!(profile.sample[0].location_id, vec![1, 2, 3]);
    assert_eq!(profile.location.len(), 3);
    assert_eq!(profile.location[0].address, 1);
    assert_eq!(profile.location[1].address, 2);
    assert_eq!(profile.location[2].address, 1);
    assert_eq!(profile.function.len(), 2);
    assert_eq!(profile.location[0].line[0].function_id, 1);
    assert_eq!(profile.location[1].line[0].function_id, 2);
    assert_eq!(profile.location[2].line[0].function_id, 1);
    assert_eq!(profile.function[0].name, 0);
    assert_eq!(profile.function[0].filename, 0);
}

#[test]
fn every_live_allocation_is_written_once() {
    let mut profiler = HeapProfiler::new();
    profiler.record(0x10, 8, Vec::new());
    profiler.record(0x20, 16, Vec::new());
    profiler.record(0x30, 24, Vec::new());
    let mut writer = ProfileProtoWriter::new();
    assert_eq!(profiler.write_symbol_frames(&mut writer), Ok(()));
    let profile = writer.finish();
    assert_eq!(profile.sample.len(), 3);
    let mut seen: Vec<(String, i64)> = profile
        .sample
        .iter()
        .map(|s| (profile.string_table[s.label[0].str as usize].clone(), s.value[0]))
        .collect();
    seen.sort();
    assert_eq!(
        seen,
        vec![("0x10".to_string(), 8), ("0x20".to_string(), 16), ("0x30".to_string(), 24)]
    );
    for sample in &profile.sample {
        assert_eq!(profile.string_table[sample.label[0].key as usize], "block");
    }
}

#[test]
fn removed_allocation_is_not_sampled() {
    let hook = ProfAlloc(16);
    let mut profiler = HeapProfiler::new();
    let mut depth: usize = 0;
    let entry = AllocEntry::new(&mut depth);
    hook.on_alloc(&entry, &mut profiler, 0xa000, 64);
    hook.on_alloc(&entry, &mut profiler, 0xb000, 32);
    hook.on_dealloc(&entry, &mut profiler, 0xa000);
    entry.leave(&mut depth);
    let mut writer = ProfileProtoWriter::new();
    assert_eq!(profiler.write_symbol_frames(&mut writer), Ok(()));
    let profile = writer.finish();
    assert_eq!(profile.sample.len(), 1);
    assert!(!profile.string_table.contains(&"0xa000".to_string()));
    assert_eq!(profile.string_table[profile.sample[0].label[0].str as usize], "0xb000");
}

#[test]
fn nested_passes_are_not_tracked() {
    let hook = ProfAlloc(16);
    let mut profiler = HeapProfiler::new();
    let mut depth: usize = 0;
    let outer = AllocEntry::new(&mut depth);
    let inner = AllocEntry::new(&mut depth);
    hook.on_alloc(&inner, &mut profiler, 0xa000, 64);
    assert_eq!(profiler.len(), 0);
    assert!(!profiler.is_initialized());
    hook.on_alloc(&outer, &mut profiler, 0xb000, 32);
    assert_eq!(profiler.len(), 1);
    hook.on_dealloc(&inner, &mut profiler, 0xb000);
    assert_eq!(profiler.len(), 1);
    hook.on_dealloc(&outer, &mut profiler, 0xb000);
    assert_eq!(profiler.len(), 0);
    inner.leave(&mut depth);
    outer.leave(&mut depth);
}

#[test]
fn first_hook_fixes_the_depth() {
    let mut profiler = HeapProfiler::new();
    let mut depth: usize = 0;
    let entry = AllocEntry::new(&mut depth);
    ProfAlloc(2).on_alloc(&entry, &mut profiler, 0x10, 1);
    ProfAlloc(64).on_alloc(&entry, &mut profiler, 0x20, 1);
    assert_eq!(profiler.max_deep(), 2);
    assert!(profiler.get(0x20).unwrap().frames.len() <= 2);
    entry.leave(&mut depth);
}

#[test]
fn recorded_sizes_add_up_to_the_live_set() {
    let hook = ProfAlloc(4);
    let mut profiler = HeapProfiler::new();
    let mut depth: usize = 0;
    let entry = AllocEntry::new(&mut depth);
    hook.on_alloc(&entry, &mut profiler, 0x10, 100);
    hook.on_alloc(&entry, &mut profiler, 0x20, 200);
    hook.on_alloc(&entry, &mut profiler, 0x30, 300);
    hook.on_dealloc(&entry, &mut profiler, 0x20);
    hook.on_alloc(&entry, &mut profiler, 0x20, 50);
    hook.on_dealloc(&entry, &mut profiler, 0x10);
    hook.on_dealloc(&entry, &mut profiler, 0x999);
    entry.leave(&mut depth);
    let total: usize = profiler
        .addresses()
        .iter()
        .map(|ptr| profiler.get(*ptr).unwrap().size)
        .sum();
    assert_eq!(total, 350);
    assert_eq!(profiler.len(), 2);
}

#[test]
fn dump_of_nothing_is_the_empty_document() {
    let profiler = HeapProfiler::new();
    assert_eq!(dump(&profiler), ProfileProtoWriter::new().flush());
}

#[test]
fn thousand_blocks_become_thousand_samples() {
    let hook = ProfAlloc(16);
    let mut profiler = HeapProfiler::new();
    let mut depth: usize = 0;
    let base: usize = 0x7f00_0000_0000;
    for i in 0..1000 {
        let entry = AllocEntry::new(&mut depth);
        hook.on_alloc(&entry, &mut profiler, base + i * 128, 128);
        entry.leave(&mut depth);
    }
    assert_eq!(profiler.len(), 1000);
    let mut writer = ProfileProtoWriter::new();
    assert_eq!(profiler.write_symbol_frames(&mut writer), Ok(()));
    let profile = writer.finish();
    assert_eq!(profile.sample.len(), 1000);
    let mut labels: Vec<String> = Vec::new();
    for sample in &profile.sample {
        assert_eq!(sample.value, vec![128]);
        assert_eq!(sample.label.len(), 1);
        assert_eq!(profile.string_table[sample.label[0].key as usize], "block");
        assert!(!sample.location_id.is_empty());
        assert!(sample.location_id.len() <= 16);
        let label = profile.string_table[sample.label[0].str as usize].clone();
        let ptr = usize::from_str_radix(&label[2..], 16).unwrap();
        assert_eq!(sample.location_id.len(), profiler.get(ptr).unwrap().frames.len());
        labels.push(label);
    }
    labels.sort();
    labels.dedup();
    assert_eq!(labels.len(), 1000);
    for i in 0..1000 {
        assert!(labels.binary_search(&format!("{:#x}", base + i * 128)).is_ok());
    }
    let mut addresses: Vec<u64> = profile.location.iter().map(|l| l.address).collect();
    addresses.sort();
    addresses.dedup();
    assert_eq!(profile.function.len(), addresses.len());
    for (i, function) in profile.function.iter().enumerate() {
        assert_eq!(function.id, i as u64 + 1);
    }
    for (i, location) in profile.location.iter().enumerate() {
        assert_eq!(location.id, i as u64 + 1);
    }
    assert_eq!(profile.string_table[0], "");
    let mut strings = profile.string_table.clone();
    strings.sort();
    strings.dedup();
    assert_eq!(strings.len(), profile.string_table.len());
    assert!(dump(&profiler).is_ok());
}
