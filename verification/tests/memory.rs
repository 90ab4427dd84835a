use rustos::memory::{
    free_range, k_alloc, k_free, k_me_init, kernel_end_addr, pg_round_up, PhysMem, Run, ALLOC_JUNK, RAM_END,
    RAM_START,
};
use rustos::virtual_memory::{
    clone_user_space, is_canonical_addr, k_stack, kvm_translate, level_index, map_pages, page_address_to_page_entry,
    pte_to_page_address, u_vm_alloc, MapError, AP_EL1_RW_EL0_RW, TRAMPOLINE, USER_IMAGE_START, USER_STACK_START,
};

const TOP: u64 = RAM_END as u64;

fn ram_with_pages(n: u64) -> PhysMem {
    let mut mem = PhysMem::new(TOP - n * 4096);
    k_me_init(&mut mem);
    mem
}

fn new_table(mem: &mut PhysMem) -> u64 {
    let Run { addr } = k_alloc(mem).unwrap();
    mem.zero_frame(addr);
    mem.mark_table(addr);
    addr
}

#[test]
fn round_up_to_pages() {
    assert_eq!(pg_round_up(0), 0);
    assert_eq!(pg_round_up(1), 4096);
    assert_eq!(pg_round_up(4095), 4096);
    assert_eq!(pg_round_up(4096), 4096);
    assert_eq!(pg_round_up(4097), 8192);
    assert_eq!(pg_round_up(0x4010_0001), 0x4010_1000);
}

#[test]
fn fresh_ram_has_no_free_page() {
    let mut mem = PhysMem::new(0x4020_0000);
    assert_eq!(kernel_end_addr(&mem), 0x4020_0000);
    assert!(k_alloc(&mut mem).is_none());
    assert!(!mem.is_present(0x4020_0000));
}

#[test]
fn me_init_frees_whole_pages_after_the_kernel() {
    let mut mem = PhysMem::new(TOP - 3 * 4096 - 100);
    k_me_init(&mut mem);
    let a = k_alloc(&mut mem).unwrap().addr;
    let b = k_alloc(&mut mem).unwrap().addr;
    let c = k_alloc(&mut mem).unwrap().addr;
    assert_eq!((a, b, c), (TOP - 4096, TOP - 2 * 4096, TOP - 3 * 4096));
    assert!(k_alloc(&mut mem).is_none());
}

#[test]
fn free_range_skips_partial_pages() {
    let mut mem = PhysMem::new(RAM_START as u64 + 0x10_0000);
    free_range(&mut mem, RAM_START + 0x10_0001, RAM_START + 0x10_3000 + 12);
    assert_eq!(k_alloc(&mut mem).unwrap().addr, RAM_START as u64 + 0x10_2000);
    assert_eq!(k_alloc(&mut mem).unwrap().addr, RAM_START as u64 + 0x10_1000);
    assert!(k_alloc(&mut mem).is_none());
}

#[test]
fn alloc_fills_with_junk() {
    let mut mem = ram_with_pages(1);
    let pa = k_alloc(&mut mem).unwrap().addr;
    assert!(mem.is_present(pa));
    assert_eq!(mem.read_word(pa, 0), ALLOC_JUNK);
    assert_eq!(mem.read_word(pa, 511), 0x0505_0505_0505_0505);
}

#[test]
fn freed_page_is_allocated_next() {
    let mut mem = ram_with_pages(3);
    let pa = k_alloc(&mut mem).unwrap().addr;
    mem.write_word(pa, 7, 42);
    k_free(&mut mem, pa);
    assert!(!mem.is_present(pa));
    let again = k_alloc(&mut mem).unwrap().addr;
    assert_eq!(again, pa);
    assert_eq!(mem.read_word(pa, 7), ALLOC_JUNK);
}

#[test]
fn words_and_bytes() {
    let mut mem = ram_with_pages(2);
    let pa = k_alloc(&mut mem).unwrap().addr;
    mem.zero_frame(pa);
    assert_eq!(mem.read_word(pa, 3), 0);
    mem.write_byte(pa + 9, 0xAB);
    assert_eq!(mem.read_word(pa, 1), 0xAB00);
    mem.copy_in(pa + 16, b"xyzw123456", 2, 8);
    assert_eq!(mem.read_word(pa, 2), u64::from_le_bytes(*b"zw123456"));
    let q = k_alloc(&mut mem).unwrap().addr;
    mem.copy_frame(pa, q);
    assert_eq!(mem.read_word(q, 1), 0xAB00);
    assert_eq!(mem.read_word(q, 2), mem.read_word(pa, 2));
}

#[test]
fn level_indices() {
    let va: u64 = (3 << 39) | (5 << 30) | (7 << 21) | (9 << 12) | 0x123;
    assert_eq!(level_index(0, va), 3);
    assert_eq!(level_index(1, va), 5);
    assert_eq!(level_index(2, va), 7);
    assert_eq!(level_index(3, va), 9);
    assert_eq!(level_index(3, 0xFFFF_FFFF_FFFF_FFFF), 511);
}

#[test]
fn descriptor_addresses() {
    assert_eq!(page_address_to_page_entry(0x4010_2345), 0x4010_2000);
    assert_eq!(pte_to_page_address(0x0060_0000_4010_2703), 0x4010_2000);
    assert_eq!(pte_to_page_address(0xFFFF_FFFF_FFFF_FFFF), 0x0000_FFFF_FFFF_F000);
}

#[test]
fn canonical_addresses() {
    assert!(is_canonical_addr(0));
    assert!(is_canonical_addr(0x0000_FFFF_FFFF_FFFF));
    assert!(!is_canonical_addr(0x0001_0000_0000_0000));
    assert!(!is_canonical_addr(0x8000_0000_0000_0000));
    assert!(is_canonical_addr(0xFFFF_0000_0000_0000));
    assert!(is_canonical_addr(u64::MAX));
}

#[test]
fn kernel_stacks_below_the_trampoline() {
    assert_eq!(k_stack(0), TRAMPOLINE - 0x3000);
    assert_eq!(k_stack(1), TRAMPOLINE - 0x6000);
    assert_eq!(k_stack(9), 0x7FFF_FFFE_1000);
}

#[test]
fn map_then_translate() {
    let mut mem = ram_with_pages(8);
    let root = new_table(&mut mem);
    let pa = 0x4010_0000u64;
    assert_eq!(map_pages(&mut mem, root, 0x20_0000, pa, 0x2000, AP_EL1_RW_EL0_RW), Ok(()));
    assert_eq!(kvm_translate(&mut mem, root, 0x20_0000), Ok(pa));
    assert_eq!(kvm_translate(&mut mem, root, 0x20_0123), Ok(pa + 0x123));
    assert_eq!(kvm_translate(&mut mem, root, 0x20_1FF8), Ok(pa + 0x1FF8));
    assert_eq!(kvm_translate(&mut mem, root, 0x20_2000), Err(MapError::WalkFailed));
    assert_eq!(kvm_translate(&mut mem, root, 0x1F_F000), Err(MapError::WalkFailed));
}

#[test]
fn map_argument_errors() {
    let mut mem = ram_with_pages(8);
    let root = new_table(&mut mem);
    assert_eq!(map_pages(&mut mem, root, 0x20_0000, 0x4010_0000, 0, 0), Err(MapError::ZeroSize));
    assert_eq!(map_pages(&mut mem, root, 0x20_0010, 0x4010_0000, 0x1000, 0), Err(MapError::UnalignedAddress));
    assert_eq!(map_pages(&mut mem, root, 0x20_0000, 0x4010_0008, 0x1000, 0), Err(MapError::UnalignedAddress));
    assert_eq!(map_pages(&mut mem, root, 0x20_0000, 0x4010_0000, 0x1001, 0), Err(MapError::UnalignedSize));
    assert_eq!(kvm_translate(&mut mem, root, 0x20_0000), Err(MapError::WalkFailed));
}

#[test]
fn map_twice_is_refused() {
    let mut mem = ram_with_pages(8);
    let root = new_table(&mut mem);
    assert_eq!(map_pages(&mut mem, root, 0x20_0000, 0x4010_0000, 0x1000, 0), Ok(()));
    assert_eq!(map_pages(&mut mem, root, 0x20_0000, 0x4020_0000, 0x1000, 0), Err(MapError::AlreadyMapped));
    assert_eq!(kvm_translate(&mut mem, root, 0x20_0000), Ok(0x4010_0000));
}

#[test]
fn map_runs_out_of_tables() {
    let mut mem = ram_with_pages(2);
    let root = new_table(&mut mem);
    assert_eq!(map_pages(&mut mem, root, 0x20_0000, 0x4010_0000, 0x1000, 0), Err(MapError::AllocationFailed));
}

#[test]
fn grow_user_memory() {
    let mut mem = ram_with_pages(16);
    let root = new_table(&mut mem);
    assert_eq!(u_vm_alloc(&mut mem, root, 0x1000, 0x800, AP_EL1_RW_EL0_RW), Ok(0x1000));
    assert_eq!(u_vm_alloc(&mut mem, root, 0x1000, 0x3000, AP_EL1_RW_EL0_RW), Ok(root));
    let a = kvm_translate(&mut mem, root, 0x1000).unwrap();
    let b = kvm_translate(&mut mem, root, 0x2000).unwrap();
    assert_ne!(a, b);
    assert_eq!(mem.read_word(a, 0), 0);
    assert_eq!(mem.read_word(b, 511), 0);
    assert_eq!(kvm_translate(&mut mem, root, 0x3000), Err(MapError::WalkFailed));
    assert_eq!(u_vm_alloc(&mut mem, root, 0x1000, 0x2000, AP_EL1_RW_EL0_RW), Err(MapError::AlreadyMapped));
}

#[test]
fn clone_copies_image_and_stack() {
    let mut mem = ram_with_pages(64);
    let parent = new_table(&mut mem);
    let child = new_table(&mut mem);
    assert_eq!(u_vm_alloc(&mut mem, parent, USER_IMAGE_START, USER_IMAGE_START + 0x1000, AP_EL1_RW_EL0_RW), Ok(parent));
    assert_eq!(u_vm_alloc(&mut mem, parent, USER_STACK_START, USER_STACK_START + 0x1000, AP_EL1_RW_EL0_RW), Ok(parent));
    let pimg = kvm_translate(&mut mem, parent, USER_IMAGE_START).unwrap();
    let pstk = kvm_translate(&mut mem, parent, USER_STACK_START).unwrap();
    mem.write_word(pimg, 5, 0xDEAD_BEEF);
    mem.write_word(pstk, 511, 77);
    assert_eq!(clone_user_space(&mut mem, parent, child), Ok(()));
    let cimg = kvm_translate(&mut mem, child, USER_IMAGE_START).unwrap();
    let cstk = kvm_translate(&mut mem, child, USER_STACK_START).unwrap();
    assert_ne!(cimg, pimg);
    assert_ne!(cstk, pstk);
    assert_eq!(mem.read_word(cimg, 5), 0xDEAD_BEEF);
    assert_eq!(mem.read_word(cstk, 511), 77);
    assert_eq!(kvm_translate(&mut mem, child, USER_IMAGE_START + 0x1000), Err(MapError::WalkFailed));
    mem.write_word(cimg, 5, 1);
    assert_eq!(mem.read_word(pimg, 5), 0xDEAD_BEEF);
}

#[test]
fn word_read_after_write() {
    let mut mem = ram_with_pages(2);
    let a = k_alloc(&mut mem).unwrap().addr;
    let b = k_alloc(&mut mem).unwrap().addr;
    mem.write_word(a, 10, 0x1122_3344_5566_7788);
    assert_eq!(mem.read_word(a, 10), 0x1122_3344_5566_7788);
    assert_eq!(mem.read_word(a, 11), ALLOC_JUNK);
    assert_eq!(mem.read_word(b, 10), ALLOC_JUNK);
}

#[test]
fn clone_into_a_used_page_is_refused() {
    let mut mem = ram_with_pages(64);
    let parent = new_table(&mut mem);
    let child = new_table(&mut mem);
    assert_eq!(u_vm_alloc(&mut mem, parent, USER_IMAGE_START, USER_IMAGE_START + 0x1000, AP_EL1_RW_EL0_RW), Ok(parent));
    assert_eq!(u_vm_alloc(&mut mem, child, USER_IMAGE_START, USER_IMAGE_START + 0x1000, AP_EL1_RW_EL0_RW), Ok(child));
    assert_eq!(clone_user_space(&mut mem, parent, child), Err(MapError::AlreadyMapped));
}

#[test]
fn clone_runs_out_of_memory() {
    let mut mem = ram_with_pages(12);
    let parent = new_table(&mut mem);
    let child = new_table(&mut mem);
    assert_eq!(u_vm_alloc(&mut mem, parent, USER_IMAGE_START, USER_IMAGE_START + 0x1000, AP_EL1_RW_EL0_RW), Ok(parent));
    while k_alloc(&mut mem).is_some() {}
    assert_eq!(clone_user_space(&mut mem, parent, child), Err(MapError::AllocationFailed));
}

#[test]
fn map_then_translate_upper_half() {
    let mut mem = ram_with_pages(8);
    let root = new_table(&mut mem);
    let va = 0xFFFF_0000_0020_0000u64;
    assert_eq!(map_pages(&mut mem, root, va, 0x4030_0000, 0x2000, 0), Ok(()));
    assert_eq!(kvm_translate(&mut mem, root, va + 0x1ABC), Ok(0x4030_1ABC));
    assert_eq!(kvm_translate(&mut mem, root, va - 8), Err(MapError::WalkFailed));
}

#[test]
fn table_frames_are_known() {
    let mut mem = ram_with_pages(2);
    let root = new_table(&mut mem);
    let data = k_alloc(&mut mem).unwrap().addr;
    assert!(mem.is_table(root));
    assert!(!mem.is_table(data));
    assert!(!mem.is_table(root + 8));
    k_free(&mut mem, root);
    assert!(!mem.is_table(root));
}
