use rustos::irq::{
    decode_syscall, enable_interrupt, exception_class, exec_args_ok, init_irq, irq_handler, irq_id,
    pend_interrupt, pop_off, syscall_action, write_args_ok, GicWrite, IrqState, Syscall, SyscallAction,
    GICC_CTLR, GICC_EOIR, GICC_PMR, GICD_CTLR, IRQ_VIRTIO0, SYS_EXEC, SYS_EXIT, SYS_FORK, SYS_READ, SYS_WAIT,
    SYS_WRITE,
};
use rustos::memory::{k_me_init, PhysMem, RAM_END};
use rustos::virtio::{
    disk_slot_base, negotiate_features, new_disk, probe_slot, virtio_features_ok, virtio_identify,
    virtio_negotiate, virtio_probe, virtio_setup_queue, MmioWrite, SlotProbe, VirtioError, NUMBER_OF_SLOTS,
    REFUSED_FEATURES, VIRTIO0,
};

#[test]
fn pop_off_unmasks_only_if_unmasked_before() {
    assert!(pop_off(IrqState { daif: 0 }));
    assert!(pop_off(IrqState { daif: 0x340 }));
    assert!(!pop_off(IrqState { daif: 0x80 }));
    assert!(!pop_off(IrqState { daif: 0x3C0 }));
}

#[test]
fn irq_id_reads_low_ten_bits() {
    assert_eq!(irq_id(48), Some(48));
    assert_eq!(irq_id(0x1C30), Some(48));
    assert_eq!(irq_id(0), Some(0));
    assert_eq!(irq_id(1021), Some(1021));
    assert_eq!(irq_id(1022), None);
    assert_eq!(irq_id(1023), None);
    assert_eq!(irq_id(0x7FF), None);
}

#[test]
fn irq_handler_acknowledges_what_it_read() {
    let (id, eoi) = irq_handler(0x430);
    assert_eq!(id, Some(48));
    assert_eq!(eoi, GicWrite { offset: GICC_EOIR, value: 0x430 });
    let (id, eoi) = irq_handler(1023);
    assert_eq!(id, None);
    assert_eq!(eoi, GicWrite { offset: 0x10, value: 1023 });
}

#[test]
fn exception_class_is_bits_31_to_26() {
    assert_eq!(exception_class(0x5600_0000), 0x15);
    assert_eq!(exception_class(0x9600_0045), 0x25);
    assert_eq!(exception_class(0xFFFF_FFFF_FFFF_FFFF), 0x3F);
    assert_eq!(exception_class(0x03FF_FFFF), 0);
}

#[test]
fn pend_interrupt_register_and_bit() {
    assert_eq!(pend_interrupt(48), GicWrite { offset: 0x204, value: 1 << 16 });
    assert_eq!(pend_interrupt(0), GicWrite { offset: 0x200, value: 1 });
    assert_eq!(pend_interrupt(31), GicWrite { offset: 0x200, value: 1 << 31 });
    assert_eq!(pend_interrupt(33), GicWrite { offset: 0x204, value: 2 });
}

#[test]
fn enable_shared_interrupt() {
    let w = enable_interrupt(48, 2, 1, 0x1122_3344, 0xAABB_CCDD);
    assert_eq!(
        w,
        vec![
            GicWrite { offset: 0x430, value: 0x1122_3302 },
            GicWrite { offset: 0x830, value: 0xAABB_CC01 },
            GicWrite { offset: 0x104, value: 1 << 16 },
        ]
    );
}

#[test]
fn enable_interrupt_byte_lanes() {
    let w = enable_interrupt(51, 0xA0, 0x03, 0x5566_7788, 0x1122_3344);
    assert_eq!(
        w,
        vec![
            GicWrite { offset: 0x430, value: 0xA066_7788 },
            GicWrite { offset: 0x830, value: 0x0322_3344 },
            GicWrite { offset: 0x104, value: 1 << 19 },
        ]
    );
}

#[test]
fn enable_private_interrupt_has_no_target() {
    let w = enable_interrupt(27, 0x80, 1, 0x0000_0000, 0xFFFF_FFFF);
    assert_eq!(
        w,
        vec![GicWrite { offset: 0x418, value: 0x8000_0000 }, GicWrite { offset: 0x100, value: 1 << 27 }]
    );
}

#[test]
fn enable_interrupt_keeps_the_other_priorities() {
    let w = enable_interrupt(49, 2, 1, 0xAABB_CCDD, 0);
    assert_eq!(w[0], GicWrite { offset: 0x430, value: 0xAABB_02DD });
    let w = enable_interrupt(50, 0x40, 1, 0xAABB_CCDD, 0);
    assert_eq!(w[0], GicWrite { offset: 0x430, value: 0xAA40_CCDD });
}

#[test]
fn init_irq_writes() {
    let r = init_irq(0x0505_0505, 0x0101_0101);
    assert_eq!(r.cpu, vec![GicWrite { offset: GICC_PMR, value: 0xFF }, GicWrite { offset: GICC_CTLR, value: 1 }]);
    assert_eq!(
        r.dist,
        vec![
            GicWrite { offset: 0x400 + IRQ_VIRTIO0, value: 0x0505_0502 },
            GicWrite { offset: 0x830, value: 0x0101_0101 },
            GicWrite { offset: 0x104, value: 1 << 16 },
            GicWrite { offset: GICD_CTLR, value: 1 },
        ]
    );
}

#[test]
fn syscall_numbers_decode() {
    assert_eq!(decode_syscall(0), Syscall::Nop);
    assert_eq!(decode_syscall(99), Syscall::Probe);
    assert_eq!(decode_syscall(SYS_WRITE), Syscall::Write);
    assert_eq!(decode_syscall(64), Syscall::Write);
    assert_eq!(decode_syscall(SYS_READ), Syscall::Read);
    assert_eq!(decode_syscall(SYS_EXIT), Syscall::Exit);
    assert_eq!(decode_syscall(SYS_FORK), Syscall::Fork);
    assert_eq!(decode_syscall(SYS_EXEC), Syscall::Exec);
    assert_eq!(decode_syscall(SYS_WAIT), Syscall::Wait);
    assert_eq!(decode_syscall(1), Syscall::Unknown);
    assert_eq!(decode_syscall(u64::MAX), Syscall::Unknown);
}

#[test]
fn syscall_argument_checks() {
    assert!(write_args_ok(0x1000, 1));
    assert!(!write_args_ok(0, 1));
    assert!(!write_args_ok(0x1000, 0));
    assert!(exec_args_ok(0x1000, 4));
    assert!(!exec_args_ok(0, 4));
    assert!(!exec_args_ok(0x1000, 0));
}

#[test]
fn syscall_actions() {
    assert_eq!(syscall_action(0, 1, 2), SyscallAction::Nothing);
    assert_eq!(syscall_action(99, 0, 0), SyscallAction::LogProbe);
    assert_eq!(syscall_action(SYS_WRITE, 0x2000, 5), SyscallAction::WriteString { ptr: 0x2000, len: 5 });
    assert_eq!(syscall_action(SYS_WRITE, 0, 5), SyscallAction::Nothing);
    assert_eq!(syscall_action(SYS_WRITE, 0x2000, 0), SyscallAction::Nothing);
    assert_eq!(syscall_action(SYS_READ, 7, 7), SyscallAction::ReadChar);
    assert_eq!(syscall_action(SYS_EXIT, 0, 0), SyscallAction::Exit);
    assert_eq!(syscall_action(SYS_FORK, 0, 0), SyscallAction::Fork);
    assert_eq!(syscall_action(SYS_EXEC, 0x3000, 4), SyscallAction::Exec { ptr: 0x3000, len: 4 });
    assert_eq!(syscall_action(SYS_EXEC, 0, 4), SyscallAction::Fail);
    assert_eq!(syscall_action(SYS_EXEC, 0x3000, 0), SyscallAction::Fail);
    assert_eq!(syscall_action(SYS_WAIT, 0, 0), SyscallAction::Wait);
    assert_eq!(syscall_action(12345, 0, 0), SyscallAction::Unknown(12345));
}

#[test]
fn probe_addresses() {
    let a = virtio_probe();
    assert_eq!(a.magic, 0x0a00_0000);
    assert_eq!(a.version, 0x0a00_0004);
    assert_eq!(a.device, 0x0a00_0008);
    assert_eq!(a.vendor, 0x0a00_000c);
}

#[test]
fn slot_bases() {
    assert_eq!(disk_slot_base(0), VIRTIO0);
    assert_eq!(disk_slot_base(1), 0x0a00_0200);
    assert_eq!(disk_slot_base(31), 0x0a00_3e00);
}

#[test]
fn slot_scan_stops_at_first_block_device() {
    let ids = [0u32, 1, 0, 2, 2, 0];
    let mut slot = 0usize;
    let found = loop {
        match probe_slot(slot, ids.get(slot).copied().unwrap_or(0)) {
            SlotProbe::Found(base) => break Some(base),
            SlotProbe::Next(n) => slot = n,
            SlotProbe::NotFound => break None,
        }
    };
    assert_eq!(found, Some(0x0a00_0600));
}

#[test]
fn slot_scan_without_disk() {
    assert_eq!(probe_slot(0, 1), SlotProbe::Next(1));
    assert_eq!(probe_slot(NUMBER_OF_SLOTS - 2, 0), SlotProbe::Next(NUMBER_OF_SLOTS - 1));
    assert_eq!(probe_slot(NUMBER_OF_SLOTS - 1, 0), SlotProbe::NotFound);
    assert_eq!(probe_slot(NUMBER_OF_SLOTS - 1, 2), SlotProbe::Found(0x0a00_3e00));
}

#[test]
fn identify_accepts_qemu_block_device() {
    let base = 0x0a00_3e00;
    let w = virtio_identify(base, 0x7472_6976, 1, 2, 0x554d_4551).unwrap();
    assert_eq!(
        w,
        vec![
            MmioWrite { addr: base + 0x70, value: 0 },
            MmioWrite { addr: base + 0x70, value: 1 },
            MmioWrite { addr: base + 0x70, value: 3 },
        ]
    );
}

#[test]
fn identify_refuses_anything_else() {
    let base = VIRTIO0;
    assert_eq!(virtio_identify(base, 0, 1, 2, 0x554d_4551), Err(VirtioError::ValidationFailed));
    assert_eq!(virtio_identify(base, 0x7472_6976, 2, 2, 0x554d_4551), Err(VirtioError::ValidationFailed));
    assert_eq!(virtio_identify(base, 0x7472_6976, 1, 1, 0x554d_4551), Err(VirtioError::ValidationFailed));
    assert_eq!(virtio_identify(base, 0x7472_6976, 1, 2, 0), Err(VirtioError::ValidationFailed));
}

#[test]
fn features_refused_bits() {
    assert_eq!(REFUSED_FEATURES, (1 << 5) | (1 << 7) | (1 << 11) | (1 << 27) | (1 << 28) | (1 << 29));
    assert_eq!(negotiate_features(0xFFFF_FFFF), 0xC7FF_F75F);
    assert_eq!(negotiate_features(0), 0);
    assert_eq!(negotiate_features(1 << 9), 1 << 9);
    assert_eq!(negotiate_features(1 << 5), 0);
}

#[test]
fn negotiate_writes() {
    let base = VIRTIO0;
    assert_eq!(
        virtio_negotiate(base, 0x3000_0220),
        vec![MmioWrite { addr: base + 0x20, value: 0x0000_0200 }, MmioWrite { addr: base + 0x70, value: 11 }]
    );
}

#[test]
fn features_ok_check() {
    let base = VIRTIO0;
    assert_eq!(virtio_features_ok(base, 3), Err(VirtioError::FeaturesRejected));
    assert_eq!(virtio_features_ok(base, 11).unwrap(), vec![MmioWrite { addr: base + 0x30, value: 0 }]);
}

fn ram_with_pages(n: u64) -> PhysMem {
    let mut mem = PhysMem::new(RAM_END as u64 - n * 4096);
    k_me_init(&mut mem);
    mem
}

#[test]
fn queue_checks() {
    let mut mem = ram_with_pages(4);
    let mut disk = new_disk();
    let base = VIRTIO0;
    assert_eq!(virtio_setup_queue(&mut mem, &mut disk, base, 11, 1, 8), Err(VirtioError::QueueInUse));
    assert_eq!(virtio_setup_queue(&mut mem, &mut disk, base, 11, 0, 0), Err(VirtioError::NoQueue));
    assert_eq!(virtio_setup_queue(&mut mem, &mut disk, base, 11, 0, 7), Err(VirtioError::QueueTooShort));
    assert_eq!(disk.desc, 0);
    assert!(disk.free.iter().all(|&f| f == 0));
}

#[test]
fn queue_needs_three_pages() {
    let mut mem = ram_with_pages(2);
    let mut disk = new_disk();
    assert_eq!(virtio_setup_queue(&mut mem, &mut disk, VIRTIO0, 11, 0, 8), Err(VirtioError::OutOfMemory));
}

#[test]
fn queue_setup() {
    let mut mem = ram_with_pages(4);
    let mut disk = new_disk();
    let base = VIRTIO0 + 0x200;
    let w = virtio_setup_queue(&mut mem, &mut disk, base, 11, 0, 1024).unwrap();
    let top = RAM_END as u64;
    assert_eq!(disk.desc, top - 0x1000);
    assert_eq!(disk.avail, top - 0x2000);
    assert_eq!(disk.used, top - 0x3000);
    assert!(disk.free.iter().all(|&f| f == 1));
    for pa in [disk.desc, disk.avail, disk.used] {
        for i in [0usize, 17, 511] {
            assert_eq!(mem.read_word(pa, i), 0);
        }
    }
    assert_eq!(
        w,
        vec![
            MmioWrite { addr: base + 0x38, value: 8 },
            MmioWrite { addr: base + 0x80, value: 0x4FFF_F000 },
            MmioWrite { addr: base + 0x84, value: 0 },
            MmioWrite { addr: base + 0x90, value: 0x4FFF_E000 },
            MmioWrite { addr: base + 0x94, value: 0 },
            MmioWrite { addr: base + 0xa0, value: 0x4FFF_D000 },
            MmioWrite { addr: base + 0xa4, value: 0 },
            MmioWrite { addr: base + 0x44, value: 1 },
            MmioWrite { addr: base + 0x70, value: 15 },
        ]
    );
}
