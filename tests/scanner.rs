use std::cell::RefCell;
use std::rc::Rc;

use memori::addresses::{Addresses, AddrsSimple, AnyAddrs, ScanError, ScanExpr};
use memori::commands::{FilterArgs, FilterOperator, TypeArgs, ValType};
use memori::context::Context;
use memori::memory_reader::{read_value, MemoryReader};
use memori::process::Process;
use memori::progress::{ProgressLog, Reporter};

/// A target whose memory is a few byte buffers, shared between clones so
/// that a test can change it between scans.
#[derive(Clone)]
struct FakeMemory {
    regions: Rc<RefCell<Vec<(usize, Vec<u8>)>>>,
}

impl FakeMemory {
    fn new(regions: Vec<(usize, Vec<u8>)>) -> FakeMemory {
        FakeMemory { regions: Rc::new(RefCell::new(regions)) }
    }

    fn poke(&self, addr: usize, bytes: &[u8]) {
        let mut regions = self.regions.borrow_mut();
        for (start, data) in regions.iter_mut() {
            if addr >= *start && addr + bytes.len() <= *start + data.len() {
                let off = addr - *start;
                data[off..off + bytes.len()].copy_from_slice(bytes);
                return;
            }
        }
        panic!("poke outside the fake memory");
    }
}

impl MemoryReader for FakeMemory {
    fn read_bytes(&mut self, addr: usize, len: usize) -> Vec<u8> {
        for (start, data) in self.regions.borrow().iter() {
            if addr >= *start && addr + len <= *start + data.len() {
                let off = addr - *start;
                return data[off..off + len].to_vec();
            }
        }
        Vec::new()
    }

    fn write_bytes(&mut self, addr: usize, bytes: &[u8]) -> Result<(), ScanError> {
        let mut regions = self.regions.borrow_mut();
        for (start, data) in regions.iter_mut() {
            if addr >= *start && addr + bytes.len() <= *start + data.len() {
                let off = addr - *start;
                data[off..off + bytes.len()].copy_from_slice(bytes);
                return Ok(());
            }
        }
        Err(ScanError::WriteFailed)
    }
}

const BASE: usize = 0x1000;

/// A 64-byte readable region at `BASE` with three `0x00C0FFEE` at offsets
/// 8, 12 and 40, and a 64-byte unreadable one right after it.
fn coffee_target() -> (Process, FakeMemory) {
    let mut data = vec![0u8; 64];
    for off in [8usize, 12, 40] {
        data[off..off + 4].copy_from_slice(&0x00C0FFEEi32.to_le_bytes());
    }
    let mut guard = vec![0u8; 64];
    guard[0..4].copy_from_slice(&0x00C0FFEEi32.to_le_bytes());
    let mem = FakeMemory::new(vec![(BASE, data), (BASE + 64, guard)]);
    let maps = "1000-1040 rw-p 00000000 00:00 0 [heap]\n1040-1080 ---p 00000000 00:00 0\n";
    let process = Process::from_listings(42, "target\0--flag\0", maps).unwrap();
    (process, mem)
}

fn attached(val_type: ValType) -> (Context<FakeMemory>, FakeMemory) {
    let (process, mem) = coffee_target();
    let mut ctx: Context<FakeMemory> = Context::new();
    ctx.process(process, mem.clone());
    ctx.change_type(&TypeArgs { val_type }).unwrap();
    (ctx, mem)
}

fn filter(ctx: &mut Context<FakeMemory>, operator: FilterOperator, operand: Option<&str>) -> Result<usize, ScanError> {
    let mut log = Reporter::new(ProgressLog::new());
    ctx.filter(&FilterArgs { operator, operand: operand.map(|s| s.to_string()) }, &mut log)
}

fn addrs_of(ctx: &Context<FakeMemory>) -> Vec<usize> {
    ctx.addrs.as_ref().unwrap().get_addrs()
}

#[test]
fn scan_addrs_simple() {
    let (process, mem) = coffee_target();
    let mut ctx: Context<FakeMemory> = Context::new();
    ctx.process(process, mem.clone());
    let weird_numbers = vec![0xc0ffee, 0xc0ffee, 0xc0ffee];
    let scan_expr = ScanExpr::Equal(weird_numbers[0].to_string());
    let mut addrs = AddrsSimple::<i32, FakeMemory>::new(mem.clone());
    addrs.scan(&ctx, &scan_expr, &mut Reporter::new(ProgressLog::new())).unwrap();

    assert!(addrs.len() >= weird_numbers.len());

    let addr1 = BASE + 8;
    let addr2 = BASE + 12;
    let addr3 = BASE + 40;
    assert!(addrs.get_addrs().contains(&addr1));
    assert!(addrs.get_addrs().contains(&addr2));
    assert!(addrs.get_addrs().contains(&addr3));
}

#[test]
fn memory_reader_simple_test() {
    let mut mem = FakeMemory::new(vec![(0x2000, 32i32.to_le_bytes().to_vec())]);
    let ret: i32 = read_value(&mut mem, 0x2000);
    assert_eq!(32, ret);
}

#[test]
fn find_own_constants_then_subset() {
    let (mut ctx, _mem) = attached(ValType::I32);
    assert_eq!(filter(&mut ctx, FilterOperator::Equal, Some("12648430")), Ok(3));
    let first = addrs_of(&ctx);
    assert_eq!(first, vec![BASE + 8, BASE + 12, BASE + 40]);
    assert_eq!(filter(&mut ctx, FilterOperator::Equal, Some("12648430")), Ok(3));
    let second = addrs_of(&ctx);
    assert!(second.iter().all(|a| first.contains(a)));
    assert_eq!(second, first);
}

#[test]
fn narrow_by_change() {
    let mut data = vec![0u8; 32];
    data[16..20].copy_from_slice(&1000i32.to_le_bytes());
    data[4..8].copy_from_slice(&1000i32.to_le_bytes());
    let mem = FakeMemory::new(vec![(0x4000, data)]);
    let process = Process::from_listings(7, "p", "4000-4020 rw-p 00000000 00:00 0\n").unwrap();
    let mut ctx: Context<FakeMemory> = Context::new();
    ctx.process(process, mem.clone());
    ctx.change_type(&TypeArgs { val_type: ValType::I32 }).unwrap();
    let n1 = filter(&mut ctx, FilterOperator::Equal, Some("1000")).unwrap();
    assert_eq!(n1, 2);
    mem.poke(0x4010, &2000i32.to_le_bytes());
    let n2 = filter(&mut ctx, FilterOperator::Changed, None).unwrap();
    assert!(n2 <= n1);
    assert_eq!(addrs_of(&ctx), vec![0x4010]);
    // the changed entry now stores the new value
    assert_eq!(ctx.addrs.as_ref().unwrap().get_vals(), vec!["2000".to_string()]);
}

#[test]
fn narrow_by_inequality() {
    let mut data = Vec::new();
    for v in [10u16, 20, 30, 40] {
        data.extend_from_slice(&v.to_le_bytes());
    }
    let mem = FakeMemory::new(vec![(0x8000, data)]);
    let process = Process::from_listings(1, "p", "8000-8008 r--p 00000000 00:00 0").unwrap();
    let mut ctx: Context<FakeMemory> = Context::new();
    ctx.process(process, mem);
    ctx.change_type(&TypeArgs { val_type: ValType::U16 }).unwrap();
    assert_eq!(filter(&mut ctx, FilterOperator::GreaterEqual, Some("20")), Ok(3));
    assert_eq!(addrs_of(&ctx), vec![0x8002, 0x8004, 0x8006]);
    assert_eq!(filter(&mut ctx, FilterOperator::Less, Some("40")), Ok(2));
    assert_eq!(addrs_of(&ctx), vec![0x8002, 0x8004]);
}

#[test]
fn write_back_round_trip() {
    let (mut ctx, mut mem) = attached(ValType::I32);
    filter(&mut ctx, FilterOperator::Equal, Some("12648430")).unwrap();
    let first = addrs_of(&ctx)[0];
    ctx.addrs.as_mut().unwrap().write(42, 0).unwrap();
    let back: i32 = read_value(&mut mem, first);
    assert_eq!(back, 42);
    assert!(filter(&mut ctx, FilterOperator::Equal, Some("42")).is_ok());
    assert!(addrs_of(&ctx).contains(&first));
}

#[test]
fn write_narrows_to_element_type() {
    let mem = FakeMemory::new(vec![(0x100, vec![0u8; 4])]);
    let process = Process::from_listings(1, "p", "100-104 rw-p 00000000 00:00 0").unwrap();
    let mut ctx: Context<FakeMemory> = Context::new();
    ctx.process(process, mem.clone());
    let mut addrs = AddrsSimple::<u8, FakeMemory>::new(mem.clone());
    addrs.scan(&ctx, &ScanExpr::Unknown, &mut Reporter::new(ProgressLog::new())).unwrap();
    addrs.write(300, 1).unwrap();
    let mut reader = mem.clone();
    assert_eq!(reader.read_bytes(0x100, 4), vec![0, 44, 0, 0]);
    assert_eq!(addrs.get_vals(), vec!["0", "44", "0", "0"]);
    assert_eq!(addrs.write(1, 4), Err(ScanError::BadIndex));
}

#[test]
fn unreadable_region_is_skipped() {
    let (mut ctx, _mem) = attached(ValType::I32);
    assert!(filter(&mut ctx, FilterOperator::Equal, Some("12648430")).is_ok());
    assert!(addrs_of(&ctx).iter().all(|a| *a < BASE + 64));
}

#[test]
fn type_change_resets() {
    let (mut ctx, _mem) = attached(ValType::I32);
    filter(&mut ctx, FilterOperator::Equal, Some("12648430")).unwrap();
    ctx.change_type(&TypeArgs { val_type: ValType::U32 }).unwrap();
    assert_eq!(ctx.get_type(), "u32");
    assert!(ctx.addrs.as_ref().unwrap().is_empty());
    assert_eq!(filter(&mut ctx, FilterOperator::Equal, Some("12648430")), Ok(3));
}

#[test]
fn values_and_addresses_stay_paired() {
    let (mut ctx, _mem) = attached(ValType::U8);
    for (op, lit) in [
        (FilterOperator::Unknown, None),
        (FilterOperator::NotEqual, Some("0")),
        (FilterOperator::Greater, Some("100")),
    ] {
        filter(&mut ctx, op, lit).unwrap();
        let a = ctx.addrs.as_ref().unwrap();
        assert_eq!(a.get_vals().len(), a.get_addrs().len());
    }
    assert_eq!(ctx.addrs.as_ref().unwrap().get_vals(), vec!["238", "255", "192", "238", "255", "192", "238", "255", "192"]);
}

#[test]
fn refinement_keeps_order_and_subset() {
    let (mut ctx, _mem) = attached(ValType::U8);
    filter(&mut ctx, FilterOperator::Unknown, None).unwrap();
    let before = addrs_of(&ctx);
    assert_eq!(before.len(), 64);
    filter(&mut ctx, FilterOperator::GreaterEqual, Some("1")).unwrap();
    let after = addrs_of(&ctx);
    assert_eq!(after, vec![BASE + 8, BASE + 9, BASE + 10, BASE + 12, BASE + 13, BASE + 14, BASE + 40, BASE + 41, BASE + 42]);
    let mut last = 0;
    for a in &after {
        let pos = before.iter().position(|b| b == a).unwrap();
        assert!(pos >= last);
        last = pos;
    }
}

#[test]
fn initial_scan_aligns_addresses() {
    let mem = FakeMemory::new(vec![(0x1003, vec![1u8; 13])]);
    let process = Process::from_listings(1, "p", "1003-1010 rw-p 00000000 00:00 0").unwrap();
    let mut ctx: Context<FakeMemory> = Context::new();
    ctx.process(process, mem);
    ctx.change_type(&TypeArgs { val_type: ValType::U32 }).unwrap();
    assert_eq!(filter(&mut ctx, FilterOperator::Unknown, None), Ok(3));
    assert_eq!(addrs_of(&ctx), vec![0x1004, 0x1008, 0x100c]);
}

#[test]
fn refresh_then_compare_matches_compare() {
    let (process, mem) = coffee_target();
    let mut ctx: Context<FakeMemory> = Context::new();
    ctx.process(process, mem.clone());
    let mut a = AddrsSimple::<i32, FakeMemory>::new(mem.clone());
    a.scan(&ctx, &ScanExpr::Unknown, &mut Reporter::new(ProgressLog::new())).unwrap();
    let mut b = a.clone_box();
    a.scan(&ctx, &ScanExpr::Refresh, &mut Reporter::new(ProgressLog::new())).unwrap();
    a.scan(&ctx, &ScanExpr::Greater("0".to_string()), &mut Reporter::new(ProgressLog::new())).unwrap();
    b.scan(&ctx, &ScanExpr::Greater("0".to_string()), &mut Reporter::new(ProgressLog::new())).unwrap();
    assert_eq!(a.get_addrs(), b.get_addrs());
    assert_eq!(a.get_vals(), b.get_vals());
}

#[test]
fn equal_then_not_equal_is_empty() {
    let (mut ctx, _mem) = attached(ValType::I32);
    filter(&mut ctx, FilterOperator::Equal, Some("12648430")).unwrap();
    assert_eq!(filter(&mut ctx, FilterOperator::NotEqual, Some("12648430")), Ok(0));
    assert_eq!(addrs_of(&ctx), Vec::<usize>::new());
}

#[test]
fn progress_is_monotone_and_ends_at_total() {
    let (process, mem) = coffee_target();
    let mut ctx: Context<FakeMemory> = Context::new();
    ctx.process(process, mem.clone());
    let mut a = AddrsSimple::<i16, FakeMemory>::new(mem);
    let mut log = Reporter::new(ProgressLog::new());
    a.scan(&ctx, &ScanExpr::Unknown, &mut log).unwrap();
    assert_eq!(log.sink.events, vec![(32, 64), (64, 64), (64, 64)]);
    let mut log2 = Reporter::new(ProgressLog::new());
    a.scan(&ctx, &ScanExpr::Unknown, &mut log2).unwrap();
    assert_eq!(log2.sink.events, vec![(0, 32), (32, 32)]);
}

#[test]
fn bad_operand_and_missing_operand() {
    let (mut ctx, _mem) = attached(ValType::I8);
    assert_eq!(filter(&mut ctx, FilterOperator::Equal, Some("128")), Err(ScanError::BadOperand));
    assert_eq!(filter(&mut ctx, FilterOperator::Equal, Some("abc")), Err(ScanError::BadOperand));
    assert_eq!(filter(&mut ctx, FilterOperator::Less, None), Err(ScanError::MissingOperand));
    assert!(ctx.addrs.as_ref().unwrap().is_empty());
    assert_eq!(filter(&mut ctx, FilterOperator::Equal, Some("-18")), Ok(3));
}

#[test]
fn context_errors() {
    let mut ctx: Context<FakeMemory> = Context::new();
    assert_eq!(ctx.get_type(), "none");
    assert_eq!(ctx.change_type(&TypeArgs { val_type: ValType::I32 }), Err(ScanError::NoProcess));
    assert_eq!(filter(&mut ctx, FilterOperator::Unknown, None), Err(ScanError::NoType));
    let (process, mem) = coffee_target();
    ctx.process(process, mem);
    ctx.change_type(&TypeArgs { val_type: ValType::I128 }).unwrap();
    assert_eq!(ctx.get_type(), "i128");
}

#[test]
fn display_rows_show_stored_and_live_values() {
    let (mut ctx, mem) = attached(ValType::I32);
    filter(&mut ctx, FilterOperator::Equal, Some("12648430")).unwrap();
    mem.poke(BASE + 12, &(-5i32).to_le_bytes());
    let rows = ctx.addrs.as_mut().unwrap().get_vals_to_print();
    assert_eq!(rows[0], (BASE + 8, "12648430".to_string(), "12648430".to_string()));
    assert_eq!(rows[1], (BASE + 12, "12648430".to_string(), "-5".to_string()));
}

#[test]
fn any_addrs_clone_keeps_addresses() {
    let (mut ctx, _mem) = attached(ValType::I32);
    filter(&mut ctx, FilterOperator::Equal, Some("12648430")).unwrap();
    let copy: AnyAddrs<FakeMemory> = ctx.addrs.as_ref().unwrap().clone_box();
    assert_eq!(copy.get_addrs(), addrs_of(&ctx));
    assert_eq!(copy.get_type(), "i32");
}

#[test]
fn empty_catalogue_gives_empty_set_and_final_report() {
    let mem = FakeMemory::new(Vec::new());
    let process = Process::from_listings(3, "p", "").unwrap();
    let mut ctx: Context<FakeMemory> = Context::new();
    ctx.process(process, mem.clone());
    let mut a = AddrsSimple::<u64, FakeMemory>::new(mem);
    let mut log = Reporter::new(ProgressLog::new());
    a.scan(&ctx, &ScanExpr::Unknown, &mut log).unwrap();
    assert!(a.is_empty());
    assert_eq!(log.sink.events, vec![(0, 0)]);
}

#[test]
fn widest_types_scan_and_print() {
    let mut data = Vec::new();
    data.extend_from_slice(&u128::MAX.to_le_bytes());
    data.extend_from_slice(&(-7i128).to_le_bytes());
    let mem = FakeMemory::new(vec![(0x9000, data)]);
    let process = Process::from_listings(1, "p", "9000-9020 rw-p 00000000 00:00 0").unwrap();
    let mut ctx: Context<FakeMemory> = Context::new();
    ctx.process(process, mem.clone());
    let mut u = AddrsSimple::<u128, FakeMemory>::new(mem.clone());
    u.scan(&ctx, &ScanExpr::Equal("340282366920938463463374607431768211455".to_string()), &mut Reporter::new(ProgressLog::new())).unwrap();
    assert_eq!(u.get_addrs(), vec![0x9000]);
    let mut i = AddrsSimple::<i128, FakeMemory>::new(mem);
    i.scan(&ctx, &ScanExpr::Less("0".to_string()), &mut Reporter::new(ProgressLog::new())).unwrap();
    assert_eq!(i.get_vals(), vec!["-1".to_string(), "-7".to_string()]);
}

#[test]
fn vanished_region_reads_as_zero() {
    // the catalogue lists a region the fake memory does not hold
    let mem = FakeMemory::new(Vec::new());
    let process = Process::from_listings(1, "p", "5000-5008 rw-p 00000000 00:00 0").unwrap();
    let mut ctx: Context<FakeMemory> = Context::new();
    ctx.process(process, mem.clone());
    let mut a = AddrsSimple::<i32, FakeMemory>::new(mem);
    a.scan(&ctx, &ScanExpr::Unknown, &mut Reporter::new(ProgressLog::new())).unwrap();
    assert_eq!(a.get_addrs(), vec![0x5000, 0x5004]);
    assert_eq!(a.get_vals(), vec!["0".to_string(), "0".to_string()]);
}

#[test]
fn write_failure_is_reported() {
    let mem = FakeMemory::new(vec![(0x6000, vec![1u8; 8])]);
    let process = Process::from_listings(1, "p", "6000-6008 rw-p 00000000 00:00 0").unwrap();
    let mut ctx: Context<FakeMemory> = Context::new();
    ctx.process(process, mem.clone());
    let mut a = AddrsSimple::<u32, FakeMemory>::new(mem.clone());
    a.scan(&ctx, &ScanExpr::Unknown, &mut Reporter::new(ProgressLog::new())).unwrap();
    mem.regions.borrow_mut().clear();
    assert_eq!(a.write(5, 1), Err(ScanError::WriteFailed));
    assert_eq!(a.len(), 2);
}

#[test]
fn evaluator_passes_on_stored_values() {
    let mut data = vec![0u8; 8];
    data[0..4].copy_from_slice(&5i32.to_le_bytes());
    data[4..8].copy_from_slice(&9i32.to_le_bytes());
    let mut mem = FakeMemory::new(vec![(0x7000, data)]);
    let vals = vec![5i32, 1];
    let addrs = vec![0x7000usize, 0x7004];
    let changed = ScanExpr::Changed.eval_expr(&mut mem, &vals, &addrs).unwrap();
    assert_eq!(changed, (vec![1], vec![0x7004]));
    let refreshed = ScanExpr::Refresh.eval_expr(&mut mem, &vals, &addrs).unwrap();
    assert_eq!(refreshed, (vals.clone(), addrs.clone()));
    let bad = ScanExpr::Less("x".to_string()).eval_expr(&mut mem, &vals, &addrs);
    assert_eq!(bad, Err(ScanError::BadOperand));
}

#[test]
fn type_erased_write_checks_index() {
    let (mut ctx, mut mem) = attached(ValType::I16);
    filter(&mut ctx, FilterOperator::Equal, Some("-18")).unwrap();
    let a = ctx.addrs.as_mut().unwrap();
    let n = a.len();
    assert_eq!(a.write(7, n), Err(ScanError::BadIndex));
    let first = a.get_addrs()[0];
    a.write(-2, 0).unwrap();
    assert_eq!(mem.read_bytes(first, 2), vec![0xfe, 0xff]);
}
