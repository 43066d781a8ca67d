use prof_mem::profile_proto::profile_proto::{
    put_messages, Function, Label, Line, Location, Message, Profile, Sample, ValueType,
};

#[test]
fn line_encodes_both_fields() {
    let line = Line { function_id: 3, line: 7 };
    assert_eq!(line.encode(), Ok(vec![0x08, 0x03, 0x10, 0x07]));
}

#[test]
fn empty_line_encodes_to_nothing() {
    let line = Line { function_id: 0, line: 0 };
    assert_eq!(line.encode(), Ok(Vec::new()));
}

#[test]
fn value_type_encodes_type_and_unit() {
    let value_type = ValueType { type_: 1, unit: 2 };
    assert_eq!(value_type.encode(), Ok(vec![0x08, 0x01, 0x10, 0x02]));
}

#[test]
fn label_encodes_key_and_text() {
    let label = Label { key: 4, str: 5 };
    assert_eq!(label.encode(), Ok(vec![0x08, 0x04, 0x10, 0x05]));
}

#[test]
fn function_encodes_in_field_order() {
    let function = Function { id: 1, name: 2, system_name: 2, filename: 3, start_line: 10 };
    assert_eq!(
        function.encode(),
        Ok(vec![0x08, 0x01, 0x10, 0x02, 0x18, 0x02, 0x20, 0x03, 0x28, 0x0a])
    );
}

#[test]
fn function_leaves_out_zero_fields() {
    let function = Function { id: 1, name: 0, system_name: 0, filename: 0, start_line: 0 };
    assert_eq!(function.encode(), Ok(vec![0x08, 0x01]));
}

#[test]
fn sample_packs_locations_and_values() {
    let sample = Sample {
        location_id: vec![1, 2],
        value: vec![128],
        label: vec![Label { key: 4, str: 5 }],
    };
    assert_eq!(
        sample.encode(),
        Ok(vec![
            0x0a, 0x02, 0x01, 0x02, 0x12, 0x02, 0x80, 0x01, 0x1a, 0x04, 0x08, 0x04, 0x10, 0x05
        ])
    );
}

#[test]
fn sample_without_locations_leaves_the_field_out() {
    let sample = Sample { location_id: Vec::new(), value: vec![1], label: Vec::new() };
    assert_eq!(sample.encode(), Ok(vec![0x12, 0x01, 0x01]));
}

#[test]
fn sample_value_keeps_its_sign_bits() {
    let sample = Sample { location_id: Vec::new(), value: vec![-1], label: Vec::new() };
    assert_eq!(
        sample.encode(),
        Ok(vec![0x12, 0x0a, 0xff, 0xff, 0xff, 0xff, 0xff, 0xff, 0xff, 0xff, 0xff, 0x01])
    );
}

#[test]
fn location_encodes_id_address_and_lines() {
    let location = Location {
        id: 1,
        address: 0x1000,
        line: vec![Line { function_id: 1, line: 7 }],
    };
    assert_eq!(
        location.encode(),
        Ok(vec![0x08, 0x01, 0x18, 0x80, 0x20, 0x22, 0x04, 0x08, 0x01, 0x10, 0x07])
    );
}

#[test]
fn profile_encodes_its_tables_in_field_order() {
    let profile = Profile {
        sample_type: vec![ValueType { type_: 1, unit: 2 }],
        sample: vec![Sample { location_id: vec![1], value: vec![8], label: Vec::new() }],
        location: vec![Location { id: 1, address: 0, line: Vec::new() }],
        function: vec![Function { id: 1, name: 3, system_name: 3, filename: 0, start_line: 0 }],
        string_table: vec![String::new(), "space".to_string()],
    };
    assert_eq!(
        profile.encode(),
        Ok(vec![
            0x0a, 0x04, 0x08, 0x01, 0x10, 0x02, // sample_type
            0x12, 0x06, 0x0a, 0x01, 0x01, 0x12, 0x01, 0x08, // sample
            0x22, 0x02, 0x08, 0x01, // location
            0x2a, 0x06, 0x08, 0x01, 0x10, 0x03, 0x18, 0x03, // function
            0x32, 0x00, // string_table[0]
            0x32, 0x05, 0x73, 0x70, 0x61, 0x63, 0x65, // string_table[1]
        ])
    );
}

#[test]
fn empty_profile_encodes_to_nothing() {
    let profile = Profile {
        sample_type: Vec::new(),
        sample: Vec::new(),
        location: Vec::new(),
        function: Vec::new(),
        string_table: Vec::new(),
    };
    assert_eq!(profile.encode(), Ok(Vec::new()));
}

#[test]
fn repeated_messages_are_one_field_each() {
    let mut out: Vec<u8> = Vec::new();
    let lines = vec![Line { function_id: 1, line: 0 }, Line { function_id: 0, line: 2 }];
    assert_eq!(put_messages(&mut out, 4, &lines), Ok(()));
    assert_eq!(out, vec![0x22, 0x02, 0x08, 0x01, 0x22, 0x02, 0x10, 0x02]);
}
