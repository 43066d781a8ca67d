use prof_mem::text::{dump_file_name, pointer_label};

#[test]
fn pointer_label_of_zero() {
    assert_eq!(pointer_label(0), "0x0");
}

#[test]
fn pointer_label_is_lower_case_hex() {
    assert_eq!(pointer_label(0xdead_beef), "0xdeadbeef");
    assert_eq!(pointer_label(15), "0xf");
    assert_eq!(pointer_label(16), "0x10");
    assert_eq!(pointer_label(0x7f00_1234_5678), "0x7f0012345678");
}

#[test]
fn pointer_label_agrees_with_std_formatting() {
    let addrs: Vec<usize> = vec![0, 1, 9, 10, 255, 256, 4095, 0x1000, 0xabcdef, usize::MAX];
    for addr in addrs {
        assert_eq!(pointer_label(addr), format!("{:#x}", addr));
    }
}

#[test]
fn dump_file_name_holds_the_milliseconds() {
    assert_eq!(dump_file_name(0), "mem.0.pb");
    assert_eq!(dump_file_name(9), "mem.9.pb");
    assert_eq!(dump_file_name(10), "mem.10.pb");
    assert_eq!(dump_file_name(1_700_000_000_123), "mem.1700000000123.pb");
    assert_eq!(dump_file_name(u128::MAX), format!("mem.{}.pb", u128::MAX));
}
