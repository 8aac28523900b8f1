use rust_virtual_memory::io::InitData;
use rust_virtual_memory::memory::{Disk, PhysicalMemory};
use rust_virtual_memory::simulation::{install, needs_demand_paging, run_texts, translate_addresses};
use rust_virtual_memory::vm_manager::VMManager;

fn err(content: &str) -> String {
    match InitData::parse(content) {
        Ok(_) => panic!("expected an error for {:?}", content),
        Err(e) => e,
    }
}

#[test]
fn parse_two_lines() {
    let d = InitData::parse("6 3000 4 9 5000 -7\n6 5 9 9 0 -20 6 6 -13\n").unwrap();
    assert_eq!(d.st_entries, vec![(6, 3000, 4), (9, 5000, -7)]);
    assert_eq!(d.pt_entries, vec![(6, 5, 9), (9, 0, -20), (6, 6, -13)]);
}

#[test]
fn parse_single_line() {
    let d = InitData::parse("1 512 2").unwrap();
    assert_eq!(d.st_entries, vec![(1, 512, 2)]);
    assert!(d.pt_entries.is_empty());
    let d2 = InitData::parse("1 512 2\n").unwrap();
    assert_eq!(d2.st_entries, vec![(1, 512, 2)]);
    assert!(d2.pt_entries.is_empty());
}

#[test]
fn parse_blank_lines_and_third_line() {
    let d = InitData::parse("\n").unwrap();
    assert!(d.st_entries.is_empty() && d.pt_entries.is_empty());
    let d2 = InitData::parse("\n\n").unwrap();
    assert!(d2.st_entries.is_empty() && d2.pt_entries.is_empty());
    let d3 = InitData::parse("1 2 3\n1 2 3\nthis line is ignored").unwrap();
    assert_eq!(d3.pt_entries, vec![(1, 2, 3)]);
}

#[test]
fn parse_whitespace_variants() {
    let d = InitData::parse("  1\t512\u{a0}2 \r\n1\u{3000}0  3\r\n").unwrap();
    assert_eq!(d.st_entries, vec![(1, 512, 2)]);
    assert_eq!(d.pt_entries, vec![(1, 0, 3)]);
}

#[test]
fn parse_signs_and_extremes() {
    let d = InitData::parse("+7 -2147483648 2147483647\n0 +511 -0").unwrap();
    assert_eq!(d.st_entries, vec![(7, i32::MIN, i32::MAX)]);
    assert_eq!(d.pt_entries, vec![(0, 511, 0)]);
    let d2 = InitData::parse("0007 0 00").unwrap();
    assert_eq!(d2.st_entries, vec![(7, 0, 0)]);
}

#[test]
fn parse_empty_file() {
    assert_eq!(err(""), "Init file is empty");
    let d = InitData::default();
    assert!(d.st_entries.is_empty() && d.pt_entries.is_empty());
}

#[test]
fn parse_token_count_errors() {
    assert_eq!(err("1 2"), "ST line has 2 tokens, expected multiple of 3");
    assert_eq!(err("1 2 3 4 5 6 7 8 9 10"), "ST line has 10 tokens, expected multiple of 3");
    assert_eq!(err("1 2 3\n4"), "PT line has 1 tokens, expected multiple of 3");
}

#[test]
fn parse_invalid_numbers() {
    assert_eq!(err("x 2 3"), "Invalid segment number: x");
    assert_eq!(err("-1 2 3"), "Invalid segment number: -1");
    assert_eq!(err("4294967296 2 3"), "Invalid segment number: 4294967296");
    assert_eq!(err("1 2.5 3"), "Invalid segment size: 2.5");
    assert_eq!(err("1 2147483648 3"), "Invalid segment size: 2147483648");
    assert_eq!(err("1 2 -2147483649"), "Invalid frame/block: -2147483649");
    assert_eq!(err("1 2 +"), "Invalid frame/block: +");
    assert_eq!(err("1 2 3\nß 0 1"), "Invalid segment number: ß");
    assert_eq!(err("1 2 3\n1 -0 1"), "Invalid page number: -0");
    assert_eq!(err("1 2 3\n1 0 --1"), "Invalid frame/block: --1");
}

#[test]
fn parse_range_errors() {
    assert_eq!(err("512 2 3"), "Segment number 512 exceeds max 511");
    assert_eq!(err("1 2 3 4294967295 0 0"), "Segment number 4294967295 exceeds max 511");
    assert_eq!(err("1 2 3\n600 0 0"), "Segment number 600 exceeds max 511");
    assert_eq!(err("1 2 3\n1 512 0"), "Page number 512 exceeds max 511");
}

#[test]
fn parse_reports_first_problem() {
    assert_eq!(err("512 x 3"), "Invalid segment size: x");
    assert_eq!(err("1 2 3 y 2 3\nz"), "Invalid segment number: y");
    assert_eq!(err("1 2\nz 0 0"), "ST line has 2 tokens, expected multiple of 3");
}

#[test]
fn apply_installs_entries() {
    let d = InitData::parse("6 3000 4 9 5000 -7\n6 5 9 9 0 -20 6 6 -13").unwrap();
    let mut pm = PhysicalMemory::new();
    let mut disk = Disk::new();
    let mut ffl = d.apply(&mut pm, &mut disk);
    assert_eq!(pm.get_segment_size(6), 3000);
    assert_eq!(pm.get_segment_pt_location(6), 4);
    assert_eq!(pm.get_segment_size(9), 5000);
    assert_eq!(pm.get_segment_pt_location(9), -7);
    assert_eq!(pm.get_page_frame(4, 5), 9);
    assert_eq!(pm.get_page_frame(4, 6), -13);
    assert_eq!(disk.read(7, 0), -20);
    // frames 4 and 9 are taken; 2 and 3 are still free
    assert_eq!(ffl.allocate(), Some(2));
    assert_eq!(ffl.allocate(), Some(3));
    assert_eq!(ffl.allocate(), Some(5));
}

#[test]
fn try_apply_reports_failure() {
    let d = InitData { st_entries: vec![(1, 512, 2000)], pt_entries: vec![(1, 0, 5)] };
    let mut pm = PhysicalMemory::new();
    let mut disk = Disk::new();
    assert!(d.try_apply(&mut pm, &mut disk).is_none());
    let d2 = InitData { st_entries: vec![(1, 512, -1024)], pt_entries: vec![(1, 0, 5)] };
    assert!(d2.try_apply(&mut pm, &mut disk).is_none());
    let d3 = InitData { st_entries: vec![(1, 512, -3)], pt_entries: vec![(1, 0, 5)] };
    let mut pm3 = PhysicalMemory::new();
    let mut disk3 = Disk::new();
    assert!(d3.try_apply(&mut pm3, &mut disk3).is_some());
    assert_eq!(disk3.read(3, 0), 5);
}

#[test]
fn needs_demand_paging_looks_for_negative_locations() {
    let plain = InitData::parse("1 512 2\n1 0 3").unwrap();
    assert!(!needs_demand_paging(&plain));
    let st_disk = InitData::parse("1 512 -2").unwrap();
    assert!(needs_demand_paging(&st_disk));
    let pt_disk = InitData::parse("1 512 2\n1 0 -3").unwrap();
    assert!(needs_demand_paging(&pt_disk));
}

fn run(init: &str, vas: &[u32]) -> Option<Vec<i32>> {
    let d = InitData::parse(init).unwrap();
    let (mut pm, disk, mut ffl) = install(&d)?;
    translate_addresses(&d, &mut pm, &disk, &mut ffl, vas)
}

#[test]
fn run_without_demand_paging() {
    let vas = [(6u32 << 18) | (5 << 9) | 3, (9 << 18) | 1, (6 << 18) | 3000, (2 << 18)];
    assert_eq!(
        run("6 3000 4 9 5000 7\n6 5 9 9 0 10", &vas),
        Some(vec![9 * 512 + 3, 10 * 512 + 1, -1, -1])
    );
}

#[test]
fn run_with_demand_paging() {
    let vas = [(8u32 << 18) | 17, (8 << 18) | (1 << 9), (8 << 18) | 42];
    // page table of segment 8 from block 3 into frame 2; page 0 from block 5 into frame 3
    assert_eq!(run("8 4000 -3\n8 0 -5 8 1 0", &vas), Some(vec![3 * 512 + 17, -1, 3 * 512 + 42]));
}

#[test]
fn run_reports_undefined_steps() {
    let d = InitData::parse("1 512 2000\n1 0 3").unwrap();
    assert!(install(&d).is_none());
    let d2 = InitData::parse("1 512 1500").unwrap();
    let (mut pm, disk, mut ffl) = install(&d2).unwrap();
    assert_eq!(translate_addresses(&d2, &mut pm, &disk, &mut ffl, &[1u32 << 18]), None);
}

#[test]
fn vm_manager_constructs() {
    let _with = VMManager::new(true);
    let _without = VMManager::new(false);
}

#[test]
fn demand_paging_skips_image_frames() {
    // segment 1: page table resident in frame 3, page 0 in frame 4, page 1 on disk block 6
    // segment 2: page table on disk block 8
    let d = InitData::parse("1 1024 3 2 512 -8\n1 0 4 1 1 -6").unwrap();
    let (mut pm, disk, mut ffl) = install(&d).unwrap();
    let vas = [(1u32 << 18) | (1 << 9) | 2, (2 << 18) | 7];
    // page 1 of segment 1 goes to frame 2; segment 2's table to frame 5 (3 and 4 belong to the image)
    assert_eq!(
        translate_addresses(&d, &mut pm, &disk, &mut ffl, &vas),
        Some(vec![2 * 512 + 2, -1])
    );
    assert_eq!(pm.get_segment_pt_location(2), 5);
    assert_eq!(pm.get_page_frame(3, 0), 4);
    assert_eq!(ffl.allocate(), Some(6));
}

#[test]
fn plain_run_leaves_memory_and_free_frames() {
    let d = InitData::parse("1 1024 3\n1 0 4").unwrap();
    let (mut pm, disk, mut ffl) = install(&d).unwrap();
    let out = translate_addresses(&d, &mut pm, &disk, &mut ffl, &[(1u32 << 18) | 5, 1 << 18 | 512]);
    assert_eq!(out, Some(vec![4 * 512 + 5, -1]));
    assert_eq!(pm.get_segment_pt_location(1), 3);
    assert_eq!(pm.get_page_frame(3, 1), 0);
    assert_eq!(ffl.allocate(), Some(2));
}

#[test]
fn whole_run_on_texts() {
    assert_eq!(
        run_texts("8 4000 -3\n8 0 -5 8 1 0", Ok("2097169 2097664\n2097194".to_string())),
        Some(Ok("1553 -1 1578".to_string()))
    );
    assert_eq!(
        run_texts("1 512 2\n1 0 3", Ok("262144 262145".to_string())),
        Some(Ok("1536 1537".to_string()))
    );
    assert_eq!(run_texts("1 512 2", Ok("".to_string())), Some(Ok("".to_string())));
}

#[test]
fn whole_run_error_order() {
    // an init error wins over an input error
    assert_eq!(
        run_texts("", Err("no input".to_string())),
        Some(Err("Init file is empty".to_string()))
    );
    // an undefined install comes before the input
    assert_eq!(run_texts("1 512 2000\n1 0 3", Err("no input".to_string())), None);
    assert_eq!(
        run_texts("1 512 2", Err("no input".to_string())),
        Some(Err("no input".to_string()))
    );
    assert_eq!(
        run_texts("1 512 2", Ok("5 x".to_string())),
        Some(Err("Invalid virtual address: x".to_string()))
    );
    // an undefined translation
    assert_eq!(run_texts("1 512 1500", Ok("262144".to_string())), None);
}
