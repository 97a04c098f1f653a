use memori::addresses::ScanError;
use memori::addresses::ScanExpr;
use memori::commands::{FilterArgs, FilterOperator};
use memori::memory_map::{Device, MemoryMap, Permissions};
use memori::memory_reader::{encode_i32, le_signed, le_unsigned, FromLeBytes};
use memori::process::{command_of, Process};
use memori::text::{parse_literal, value_text};
use memori::util::filter_args_to_scan_expr;

#[test]
fn memory_map_line_is_read() {
    let m = MemoryMap::from("00400000-00452000 r-xp 00000000 08:02 173521      /usr/bin/dbus-daemon").unwrap();
    assert_eq!(m.addr_start, 0x400000);
    assert_eq!(m.addr_end, 0x452000);
    assert!(m.perms.read && !m.perms.write && m.perms.execute && m.perms.private && !m.perms.shared);
    assert_eq!(m.offset, 0);
    assert_eq!(m.dev, Device { major: 8, minor: 2 });
    assert_eq!(m.inode, 173521);
    assert_eq!(m.pathname, "/usr/bin/dbus-daemon");
}

#[test]
fn memory_map_path_keeps_spaces_and_may_be_empty() {
    let m = MemoryMap::from("7f00-7f10 rw-s 0000a000 fd:01 99   /tmp/my file (deleted)  ").unwrap();
    assert_eq!(m.pathname, "/tmp/my file (deleted)");
    assert!(m.perms.shared && !m.perms.private);
    assert_eq!(m.offset, 0xa000);
    assert_eq!(m.dev, Device { major: 0xfd, minor: 1 });
    let anon = MemoryMap::from("7f00-7f10 ---p 00000000 00:00 0").unwrap();
    assert_eq!(anon.pathname, "");
    assert!(!anon.perms.read);
}

#[test]
fn malformed_memory_map_lines_are_refused() {
    assert!(MemoryMap::from("").is_none());
    assert!(MemoryMap::from("7f00 rw-p 0 00:00 0").is_none());
    assert!(MemoryMap::from("7f00-7g10 rw-p 0 00:00 0").is_none());
    assert!(MemoryMap::from("7f00-7f10 rw- 0 00:00 0").is_none());
    assert!(MemoryMap::from("7f00-7f10 rw-p 0 0000 0").is_none());
    assert!(MemoryMap::from("7f00-7f10 rw-p 0 00:00 x").is_none());
    assert!(MemoryMap::from("10000000000000000-1 rw-p 0 00:00 0").is_none());
}

#[test]
fn permissions_and_device_fields() {
    assert_eq!(
        Permissions::from("rw-s"),
        Some(Permissions { read: true, write: true, execute: false, private: false, shared: true })
    );
    assert_eq!(Permissions::from("rwx"), None);
    assert_eq!(Device::from("08:1f"), Some(Device { major: 8, minor: 31 }));
    assert_eq!(Device::from("80000000:0"), None);
    assert_eq!(Device::from("08"), None);
}

#[test]
fn process_from_listings() {
    let p = Process::from_listings(
        9,
        "/bin/prog\0-v\0x\0\0",
        "1000-2000 r--p 00000000 00:00 0 /bin/prog\r\n2000-3000 rw-p 00001000 00:00 0\n",
    )
    .unwrap();
    assert_eq!(p.pid, 9);
    assert_eq!(p.command, "/bin/prog -v x");
    assert_eq!(p.memory_maps.len(), 2);
    assert_eq!(p.memory_maps[0].pathname, "/bin/prog");
    assert_eq!(p.memory_maps[1].offset, 0x1000);
    assert!(Process::from_listings(9, "p", "1000-2000 r--p 0 00:00 0\nbad line\n").is_none());
    assert_eq!(command_of("a\0b"), "a b");
}

#[test]
fn literals_follow_the_element_type() {
    assert_eq!(parse_literal::<i8>("-128"), Some(-128));
    assert_eq!(parse_literal::<i8>("128"), None);
    assert_eq!(parse_literal::<u8>("+255"), Some(255));
    assert_eq!(parse_literal::<u32>("-0"), None);
    assert_eq!(parse_literal::<i32>("-0"), Some(0));
    assert_eq!(parse_literal::<u128>("340282366920938463463374607431768211455"), Some(u128::MAX));
    assert_eq!(parse_literal::<u128>("340282366920938463463374607431768211456"), None);
    assert_eq!(parse_literal::<i128>("-170141183460469231731687303715884105728"), Some(i128::MIN));
    assert_eq!(parse_literal::<i64>(""), None);
    assert_eq!(parse_literal::<i64>("-"), None);
    assert_eq!(parse_literal::<i64>("12a"), None);
}

#[test]
fn values_are_written_in_decimal() {
    assert_eq!(value_text(&-42i32), "-42");
    assert_eq!(value_text(&0u8), "0");
    assert_eq!(value_text(&i128::MIN), "-170141183460469231731687303715884105728");
    assert_eq!(value_text(&u64::MAX), "18446744073709551615");
}

#[test]
fn little_endian_decoding() {
    assert_eq!(le_unsigned(&[0x34, 0x12]), 0x1234);
    assert_eq!(le_signed(&[0xff, 0xff]), -1);
    assert_eq!(le_signed(&[0x00, 0x80]), -32768);
    assert_eq!(<i16 as FromLeBytes>::from_le_bytes(&[0xfe, 0xff]), -2);
    assert_eq!(<u32 as FromLeBytes>::from_le_bytes(&[0xee, 0xff, 0xc0, 0x00]), 0x00c0ffee);
    assert_eq!(<i128 as FromLeBytes>::from_le_bytes(&[0xff; 16]), -1);
}

#[test]
fn encoding_narrows_and_sign_extends() {
    assert_eq!(encode_i32(300, 1), vec![44]);
    assert_eq!(encode_i32(-1, 8), vec![0xff; 8]);
    assert_eq!(encode_i32(-2, 2), vec![0xfe, 0xff]);
    assert_eq!(encode_i32(42, 4), vec![42, 0, 0, 0]);
}

#[test]
fn filter_arguments_become_expressions() {
    let args = FilterArgs { operator: FilterOperator::LessEqual, operand: Some("5".to_string()) };
    assert!(matches!(filter_args_to_scan_expr(&args), Ok(ScanExpr::LessEqual(s)) if s == "5"));
    let args = FilterArgs { operator: FilterOperator::NotChanged, operand: None };
    assert!(matches!(filter_args_to_scan_expr(&args), Ok(ScanExpr::NotChanged)));
    let args = FilterArgs { operator: FilterOperator::Greater, operand: None };
    assert!(matches!(filter_args_to_scan_expr(&args), Err(ScanError::MissingOperand)));
}
