use prof_mem::profile_proto::profile_proto::{
    Function, Label, Line, Location, Message, Sample, ValueType,
};
use prof_mem::profile_proto::writer::{
    FuncationAdd, FuncationsTable, ProfileProtoWriter, StringsTable,
};
use prof_mem::profiler::{AllocSymbolFrames, SymbolInfo};

fn symbol(name: &str, file_name: &str, line_no: u32, addr: usize) -> SymbolInfo {
    SymbolInfo {
        file_name: file_name.to_string(),
        line_no,
        col_no: 0,
        name: name.to_string(),
        addr,
    }
}

#[test]
fn new_table_holds_the_empty_string_at_zero() {
    let mut strings = StringsTable::new();
    assert_eq!(strings.len(), 1);
    assert_eq!(strings.get(0), "");
    assert_eq!(strings.add(String::new()), 0);
    assert_eq!(strings.len(), 1);
}

#[test]
fn equal_strings_get_equal_ids() {
    let mut strings = StringsTable::new();
    let first = strings.add("alpha".to_string());
    let second = strings.add("beta".to_string());
    let again = strings.add("alpha".to_string());
    assert_eq!(first, 1);
    assert_eq!(second, 2);
    assert_eq!(again, first);
    assert_ne!(first, second);
    assert_eq!(strings.len(), 3);
    assert_eq!(strings.get(1), "alpha");
    assert_eq!(strings.get(2), "beta");
    assert_eq!(
        strings.into_table(),
        vec![String::new(), "alpha".to_string(), "beta".to_string()]
    );
}

#[test]
fn strings_with_the_same_hash_get_different_ids() {
    // 31 * 1 + 32 == 31 * 2 + 1: both strings fall into one bucket of the cache.
    let mut strings = StringsTable::new();
    let first = strings.add("\u{1} ".to_string());
    let second = strings.add("\u{2}\u{1}".to_string());
    assert_eq!(first, 1);
    assert_eq!(second, 2);
    assert_eq!(strings.add("\u{2}\u{1}".to_string()), 2);
    assert_eq!(strings.add("\u{1} ".to_string()), 1);
    assert_eq!(strings.len(), 3);
}

#[test]
fn many_strings_keep_their_ids() {
    let mut strings = StringsTable::new();
    for i in 0..2000usize {
        assert_eq!(strings.add(format!("name-{}", i)), i + 1);
    }
    for i in 0..2000usize {
        assert_eq!(strings.add(format!("name-{}", i)), i + 1);
    }
    assert_eq!(strings.len(), 2001);
    assert_eq!(strings.get(2000), "name-1999");
}

#[test]
fn empty_string_keeps_id_zero_after_other_strings() {
    let mut strings = StringsTable::new();
    strings.add("x".to_string());
    strings.add("y".to_string());
    assert_eq!(strings.add(String::new()), 0);
    assert_eq!(strings.len(), 3);
}

#[test]
fn new_function_is_inserted_with_the_next_id() {
    let mut strings = StringsTable::new();
    let mut functions = FuncationsTable::new();
    let first = functions.add(&mut strings, symbol("main", "main.rs", 3, 0x1000));
    let second = functions.add(&mut strings, symbol("work", "main.rs", 9, 0x2000));
    assert_eq!(first, FuncationAdd::Insert(1));
    assert_eq!(second, FuncationAdd::Insert(2));
    assert_eq!(functions.len(), 2);
    assert_eq!(
        functions.into_table(),
        vec![
            Function { id: 1, name: 1, system_name: 1, filename: 2, start_line: 3 },
            Function { id: 2, name: 3, system_name: 3, filename: 2, start_line: 9 },
        ]
    );
    assert_eq!(
        strings.into_table(),
        vec![String::new(), "main".to_string(), "main.rs".to_string(), "work".to_string()]
    );
}

#[test]
fn known_function_address_keeps_its_id() {
    let mut strings = StringsTable::new();
    let mut functions = FuncationsTable::new();
    functions.add(&mut strings, symbol("main", "main.rs", 3, 0x1000));
    functions.add(&mut strings, symbol("work", "work.rs", 9, 0x2000));
    let again = functions.add(&mut strings, symbol("other", "other.rs", 77, 0x1000));
    assert_eq!(again, FuncationAdd::Exist(1));
    assert_eq!(functions.len(), 2);
    assert_eq!(strings.len(), 5);
}

#[test]
fn unresolved_symbol_is_a_function_of_its_own() {
    let mut strings = StringsTable::new();
    let mut functions = FuncationsTable::new();
    let added = functions.add(&mut strings, symbol("", "", 0, 0));
    assert_eq!(added, FuncationAdd::Insert(1));
    assert_eq!(
        functions.into_table(),
        vec![Function { id: 1, name: 0, system_name: 0, filename: 0, start_line: 0 }]
    );
    assert_eq!(strings.len(), 1);
}

#[test]
fn new_writer_finishes_with_the_sample_type_alone() {
    let profile = ProfileProtoWriter::new().finish();
    assert_eq!(profile.sample_type, vec![ValueType { type_: 1, unit: 2 }]);
    assert!(profile.sample.is_empty());
    assert!(profile.location.is_empty());
    assert!(profile.function.is_empty());
    assert_eq!(
        profile.string_table,
        vec![String::new(), "space".to_string(), "bytes".to_string()]
    );
}

#[test]
fn one_allocation_becomes_one_sample() {
    let mut writer = ProfileProtoWriter::new();
    let record = AllocSymbolFrames {
        ptr: 0x7f00_0010,
        size: 128,
        frames: vec![
            symbol("inner", "lib.rs", 10, 0x1000),
            symbol("outer", "main.rs", 20, 0x2000),
        ],
    };
    assert_eq!(writer.write_symbol_frame(record), Ok(()));
    let profile = writer.finish();
    assert_eq!(
        profile.sample,
        vec![Sample {
            location_id: vec![1, 2],
            value: vec![128],
            label: vec![Label { key: 5, str: 6 }],
        }]
    );
    assert_eq!(
        profile.location,
        vec![
            Location { id: 1, address: 0x1000, line: vec![Line { function_id: 1, line: 10 }] },
            Location { id: 2, address: 0x2000, line: vec![Line { function_id: 2, line: 20 }] },
        ]
    );
    assert_eq!(
        profile.function,
        vec![
            Function { id: 1, name: 1, system_name: 1, filename: 2, start_line: 10 },
            Function { id: 2, name: 3, system_name: 3, filename: 4, start_line: 20 },
        ]
    );
    assert_eq!(
        profile.string_table,
        vec![
            String::new(),
            "inner".to_string(),
            "lib.rs".to_string(),
            "outer".to_string(),
            "main.rs".to_string(),
            "block".to_string(),
            "0x7f000010".to_string(),
            "space".to_string(),
            "bytes".to_string(),
        ]
    );
    assert_eq!(profile.sample_type, vec![ValueType { type_: 7, unit: 8 }]);
}

#[test]
fn functions_are_shared_and_locations_are_not() {
    let mut writer = ProfileProtoWriter::new();
    let first = AllocSymbolFrames {
        ptr: 0x10,
        size: 8,
        frames: vec![symbol("f", "f.rs", 1, 0x1000), symbol("g", "g.rs", 2, 0x2000)],
    };
    let second = AllocSymbolFrames {
        ptr: 0x20,
        size: 16,
        frames: vec![symbol("f", "f.rs", 5, 0x1000), symbol("f", "f.rs", 1, 0x1000)],
    };
    assert_eq!(writer.write_symbol_frame(first), Ok(()));
    assert_eq!(writer.write_symbol_frame(second), Ok(()));
    let profile = writer.finish();
    assert_eq!(profile.function.len(), 2);
    assert_eq!(profile.location.len(), 4);
    assert_eq!(profile.sample[0].location_id, vec![1, 2]);
    assert_eq!(profile.sample[1].location_id, vec![3, 4]);
    assert_eq!(
        profile.location[2],
        Location { id: 3, address: 0x1000, line: vec![Line { function_id: 1, line: 5 }] }
    );
    assert_eq!(
        profile.location[3],
        Location { id: 4, address: 0x1000, line: vec![Line { function_id: 1, line: 1 }] }
    );
    assert_eq!(profile.function[0].start_line, 1);
    assert_eq!(profile.sample[0].value, vec![8]);
    assert_eq!(profile.sample[1].value, vec![16]);
    assert_eq!(profile.sample[0].label[0].key, profile.sample[1].label[0].key);
    assert_ne!(profile.sample[0].label[0].str, profile.sample[1].label[0].str);
}

#[test]
fn allocation_without_frames_has_no_locations() {
    let mut writer = ProfileProtoWriter::new();
    let record = AllocSymbolFrames { ptr: 0x30, size: 1, frames: Vec::new() };
    assert_eq!(writer.write_symbol_frame(record), Ok(()));
    let profile = writer.finish();
    assert_eq!(profile.sample.len(), 1);
    assert!(profile.sample[0].location_id.is_empty());
    assert!(profile.location.is_empty());
    assert_eq!(profile.string_table[1], "block");
    assert_eq!(profile.string_table[2], "0x30");
}

#[test]
fn flush_encodes_the_finished_document() {
    let mut first = ProfileProtoWriter::new();
    let mut second = ProfileProtoWriter::new();
    let record = AllocSymbolFrames {
        ptr: 0x40,
        size: 64,
        frames: vec![symbol("f", "f.rs", 1, 0x1000)],
    };
    assert_eq!(first.write_symbol_frame(record.clone()), Ok(()));
    assert_eq!(second.write_symbol_frame(record), Ok(()));
    let bytes = first.flush();
    assert_eq!(bytes, second.finish().encode());
    assert!(!bytes.unwrap().is_empty());
}

#[test]
fn flush_of_a_new_writer_is_the_sample_type_and_strings() {
    let bytes = ProfileProtoWriter::new().flush();
    assert_eq!(
        bytes,
        Ok(vec![
            0x0a, 0x04, 0x08, 0x01, 0x10, 0x02, // sample_type {1, 2}
            0x32, 0x00, // ""
            0x32, 0x05, 0x73, 0x70, 0x61, 0x63, 0x65, // "space"
            0x32, 0x05, 0x62, 0x79, 0x74, 0x65, 0x73, // "bytes"
        ])
    );
}
