use hvcore::addr::{allows, FLAGS_ALL, FLAG_READ, FLAG_USER, FLAG_WRITE};
use hvcore::aspace::{AddrSpace, AspaceError};
use hvcore::loader::{load_vm_image, LoadError};

const VM_ASPACE_BASE: usize = 0x0;
const VM_ASPACE_SIZE: usize = 0x7fff_ffff_f000;
const PHY_MEM_START: usize = 0x8000_0000;
const PHY_MEM_SIZE: usize = 0x100_0000;
const KERNEL_BASE: usize = 0x8020_0000;

fn guest_space(frames: usize) -> AddrSpace {
    AddrSpace::new_empty(VM_ASPACE_BASE, VM_ASPACE_SIZE, 0x9000_0000, frames).unwrap()
}

#[test]
fn new_empty_rejects_unaligned_bounds() {
    assert_eq!(AddrSpace::new_empty(0x1001, 0x1000, 0x9000_0000, 4).err(), Some(AspaceError::InvalidParam));
    assert_eq!(AddrSpace::new_empty(0x1000, 0x1234, 0x9000_0000, 4).err(), Some(AspaceError::InvalidParam));
    assert_eq!(AddrSpace::new_empty(usize::MAX - 0xfff, 0x2000, 0x9000_0000, 4).err(), Some(AspaceError::InvalidParam));
    assert!(AddrSpace::new_empty(0x1000, 0x1000, 0x9000_0000, 4).is_ok());
}

#[test]
fn eager_region_image_loads_exactly() {
    let mut aspace = guest_space(4096);
    assert_eq!(aspace.allocate_and_map(PHY_MEM_START, PHY_MEM_SIZE, FLAGS_ALL, true), Ok(()));
    assert_eq!(aspace.page_table_root(), 0x9000_0000);
    let image: Vec<u8> = (0..4096u32).map(|i| (i * 7 % 251) as u8).collect();
    assert_eq!(load_vm_image(&mut aspace, KERNEL_BASE, &image, image.len()), Ok(()));
    assert_eq!(aspace.read(KERNEL_BASE, 4096).unwrap(), image);
    // Fresh eager frames are zeroed around the image.
    assert_eq!(aspace.read(KERNEL_BASE - 2, 2).unwrap(), vec![0, 0]);
    assert_eq!(aspace.read(KERNEL_BASE + 4096, 3).unwrap(), vec![0, 0, 0]);
}

#[test]
fn overlapping_region_is_rejected_and_changes_nothing() {
    let mut aspace = guest_space(64);
    assert_eq!(aspace.allocate_and_map(0x10000, 0x4000, FLAG_READ | FLAG_WRITE, true), Ok(()));
    aspace.write(0x10010, &[9, 8, 7]).unwrap();
    assert_eq!(aspace.allocate_and_map(0x13000, 0x2000, FLAG_READ, false), Err(AspaceError::Overlap));
    assert_eq!(aspace.allocate_and_map(0xf000, 0x2000, FLAG_READ, true), Err(AspaceError::Overlap));
    assert_eq!(aspace.read(0x10010, 3).unwrap(), vec![9, 8, 7]);
    // Adjacent ranges on either side are accepted.
    assert_eq!(aspace.allocate_and_map(0x14000, 0x1000, FLAG_READ, false), Ok(()));
    assert_eq!(aspace.allocate_and_map(0xf000, 0x1000, FLAG_READ, false), Ok(()));
    assert!(!aspace.is_mapped(0x14000));
    assert!(aspace.is_mapped(0x13fff));
}

#[test]
fn invalid_ranges_are_rejected() {
    let mut aspace = AddrSpace::new_empty(0x10000, 0x10000, 0x9000_0000, 16).unwrap();
    assert_eq!(aspace.allocate_and_map(0x10001, 0x1000, FLAG_READ, true), Err(AspaceError::InvalidParam));
    assert_eq!(aspace.allocate_and_map(0x10000, 0x1001, FLAG_READ, true), Err(AspaceError::InvalidParam));
    assert_eq!(aspace.allocate_and_map(0x10000, 0, FLAG_READ, true), Err(AspaceError::InvalidParam));
    assert_eq!(aspace.allocate_and_map(0xf000, 0x1000, FLAG_READ, true), Err(AspaceError::InvalidParam));
    assert_eq!(aspace.allocate_and_map(0x1f000, 0x2000, FLAG_READ, true), Err(AspaceError::InvalidParam));
    assert_eq!(aspace.allocate_and_map(0x1f000, 0x1000, FLAG_READ, true), Ok(()));
}

#[test]
fn eager_region_beyond_frames_is_out_of_memory() {
    let mut aspace = guest_space(3);
    assert_eq!(aspace.allocate_and_map(0x10000, 0x4000, FLAGS_ALL, true), Err(AspaceError::OutOfMemory));
    assert!(!aspace.is_mapped(0x10000));
    assert_eq!(aspace.allocate_and_map(0x10000, 0x3000, FLAGS_ALL, true), Ok(()));
    // A lazy region needs no frame up front, but its faults do.
    assert_eq!(aspace.allocate_and_map(0x20000, 0x4000, FLAGS_ALL, false), Ok(()));
    assert!(!aspace.handle_page_fault(0x20000, FLAG_READ));
}

#[test]
fn lazy_fault_backs_exactly_one_page_once() {
    let mut aspace = guest_space(8);
    assert_eq!(aspace.allocate_and_map(0x40000, 0x4000, FLAG_READ | FLAG_WRITE, false), Ok(()));
    assert!(!aspace.is_mapped(0x41000));
    assert!(aspace.handle_page_fault(0x41234, FLAG_WRITE));
    assert!(aspace.is_mapped(0x41000));
    assert!(aspace.is_mapped(0x41fff));
    assert!(!aspace.is_mapped(0x40fff));
    assert!(!aspace.is_mapped(0x42000));
    aspace.write(0x41234, &[5, 6]).unwrap();
    // A second fault at the same address resolves without a new frame: the
    // bytes stay.
    assert!(aspace.handle_page_fault(0x41234, FLAG_WRITE));
    assert_eq!(aspace.read(0x41234, 2).unwrap(), vec![5, 6]);
    assert_eq!(aspace.read(0x41000, 4).unwrap(), vec![0, 0, 0, 0]);
}

#[test]
fn fault_outside_every_region_is_unresolved() {
    let mut aspace = guest_space(8);
    assert_eq!(aspace.allocate_and_map(0x40000, 0x1000, FLAG_READ, false), Ok(()));
    assert!(!aspace.handle_page_fault(0x41000, FLAG_READ));
    assert!(!aspace.handle_page_fault(0x3ffff, FLAG_READ));
}

#[test]
fn fault_beyond_granted_flags_is_never_resolved() {
    let mut aspace = guest_space(8);
    assert_eq!(aspace.allocate_and_map(0x50000, 0x2000, FLAG_READ, false), Ok(()));
    assert_eq!(aspace.allocate_and_map(0x60000, 0x1000, FLAG_READ | FLAG_USER, true), Ok(()));
    assert!(!aspace.handle_page_fault(0x50010, FLAG_WRITE));
    assert!(!aspace.is_mapped(0x50010));
    assert!(!aspace.handle_page_fault(0x50010, FLAG_READ | FLAG_WRITE));
    // Already backed, still refused.
    assert!(!aspace.handle_page_fault(0x60010, FLAG_WRITE));
    assert!(aspace.handle_page_fault(0x50010, FLAG_READ));
    assert!(!aspace.handle_page_fault(0x50010, FLAG_WRITE));
}

#[test]
fn flag_subset_test() {
    assert!(allows(FLAGS_ALL, FLAG_READ | FLAG_WRITE));
    assert!(allows(FLAG_READ, FLAG_READ));
    assert!(allows(FLAG_READ, 0));
    assert!(!allows(FLAG_READ, FLAG_WRITE));
    assert!(!allows(FLAG_READ | FLAG_USER, FLAG_READ | FLAG_WRITE));
}

#[test]
fn write_across_pages_reads_back() {
    let mut aspace = guest_space(8);
    assert_eq!(aspace.allocate_and_map(0x70000, 0x3000, FLAG_READ | FLAG_WRITE, false), Ok(()));
    assert!(aspace.handle_page_fault(0x71000, FLAG_WRITE));
    assert!(aspace.handle_page_fault(0x70000, FLAG_WRITE));
    assert!(aspace.handle_page_fault(0x72000, FLAG_WRITE));
    let data: Vec<u8> = (0..5000u32).map(|i| (i % 256) as u8).collect();
    assert_eq!(aspace.write(0x70ffe, &data), Ok(()));
    assert_eq!(aspace.read(0x70ffe, data.len()).unwrap(), data);
    assert_eq!(aspace.read(0x70ffd, 1).unwrap(), vec![0]);
}

#[test]
fn write_to_unbacked_range_fails_and_changes_nothing() {
    let mut aspace = guest_space(8);
    assert_eq!(aspace.allocate_and_map(0x70000, 0x2000, FLAG_READ | FLAG_WRITE, false), Ok(()));
    assert!(aspace.handle_page_fault(0x70000, FLAG_WRITE));
    assert_eq!(aspace.write(0x70ffe, &[1, 2, 3]), Err(AspaceError::NotMapped));
    assert_eq!(aspace.read(0x70ffe, 2).unwrap(), vec![0, 0]);
    assert_eq!(aspace.read(0x70ffe, 3), Err(AspaceError::NotMapped));
    assert_eq!(aspace.write(usize::MAX, &[1, 2]), Err(AspaceError::NotMapped));
    assert_eq!(aspace.write(0x90000, &[]), Ok(()));
}

#[test]
fn translated_runs_split_at_page_boundaries() {
    let mut aspace = guest_space(8);
    assert_eq!(aspace.allocate_and_map(0x80000, 0x3000, FLAGS_ALL, true), Ok(()));
    let runs = aspace.translated_byte_buffer(0x80ff0, 0x1020).unwrap();
    let pieces: Vec<(usize, usize)> = runs.iter().map(|r| (r.addr, r.len)).collect();
    assert_eq!(pieces, vec![(0x80ff0, 0x10), (0x81000, 0x1000), (0x82000, 0x10)]);
    assert_eq!(runs[1].phys, 0x1000);
    assert_eq!(runs[0].phys, 0xff0);
    assert!(aspace.translated_byte_buffer(0x80000, 0).unwrap().is_empty());
    assert_eq!(aspace.translated_byte_buffer(0x82ff0, 0x20).err(), Some(AspaceError::NotMapped));
}

#[test]
fn short_image_is_truncated() {
    let mut aspace = guest_space(8);
    assert_eq!(aspace.allocate_and_map(0x80000, 0x2000, FLAGS_ALL, true), Ok(()));
    let image = vec![1u8; 100];
    assert_eq!(load_vm_image(&mut aspace, 0x80000, &image, 200), Err(LoadError::Truncated));
    assert_eq!(aspace.read(0x80000, 1).unwrap(), vec![0]);
    assert_eq!(load_vm_image(&mut aspace, 0x81f00, &image, 0x200), Err(LoadError::NotMapped));
    assert_eq!(load_vm_image(&mut aspace, 0x80ff0, &image, 100), Ok(()));
    assert_eq!(aspace.read(0x80ff0, 100).unwrap(), image);
}
