use vstd::prelude::*;
use crate::memory::{k_alloc, PhysMem};
use crate::virtual_memory::zero_page;

verus! {

/// Base address of the first virtio-mmio slot on QEMU's `virt` machine.
pub const VIRTIO0: usize = 0x0a00_0000;
/// Distance between two virtio-mmio slots.
pub const VIRTIO_SLOT_SIZE: usize = 0x200;
/// Number of virtio-mmio slots the machine has.
pub const NUMBER_OF_SLOTS: usize = 32;
/// Number of descriptors in the disk's queue.
pub const NUMBER_OF_QUEUES: usize = 8;
/// Size of a disk block.
pub const BLOCK_SIZE: usize = 1024;

pub const VIRTIO_MMIO_MAGIC_VALUE: usize = 0x000;
pub const VIRTIO_MMIO_VERSION: usize = 0x004;
pub const VIRTIO_MMIO_DEVICE_ID: usize = 0x008;
pub const VIRTIO_MMIO_VENDOR_ID: usize = 0x00c;
pub const VIRTIO_MMIO_DEVICE_FEATURES: usize = 0x010;
pub const VIRTIO_MMIO_DRIVER_FEATURES: usize = 0x020;
pub const VIRTIO_MMIO_QUEUE_SEL: usize = 0x030;
pub const VIRTIO_MMIO_QUEUE_NUM_MAX: usize = 0x034;
pub const VIRTIO_MMIO_QUEUE_NUM: usize = 0x038;
pub const VIRTIO_MMIO_QUEUE_READY: usize = 0x044;
pub const VIRTIO_MMIO_STATUS: usize = 0x070;
pub const VIRTIO_MMIO_QUEUE_DESC_LOW: usize = 0x080;
pub const VIRTIO_MMIO_QUEUE_DESC_HIGH: usize = 0x084;
pub const VIRTIO_MMIO_DRIVER_DESC_LOW: usize = 0x090;
pub const VIRTIO_MMIO_DRIVER_DESC_HIGH: usize = 0x094;
pub const VIRTIO_MMIO_DEVICE_DESC_LOW: usize = 0x0a0;
pub const VIRTIO_MMIO_DEVICE_DESC_HIGH: usize = 0x0a4;

pub const VIRTIO_CONFIG_S_ACKNOWLEDGE: u32 = 1;
pub const VIRTIO_CONFIG_S_DRIVER: u32 = 2;
pub const VIRTIO_CONFIG_S_DRIVER_OK: u32 = 4;
pub const VIRTIO_CONFIG_S_FEATURES_OK: u32 = 8;

/// Disk is read-only.
pub const VIRTIO_BLK_F_RO: u32 = 5;
/// Supports SCSI command passthrough.
pub const VIRTIO_BLK_F_SCSI: u32 = 7;
/// Writeback mode available in config.
pub const VIRTIO_BLK_F_CONFIG_WCE: u32 = 11;
pub const VIRTIO_F_ANY_LAYOUT: u32 = 27;
pub const VIRTIO_RING_F_INDIRECT_DESC: u32 = 28;
pub const VIRTIO_RING_F_EVENT_IDX: u32 = 29;

/// The magic value a virtio-mmio device reads: "virt".
pub const VIRTIO_MAGIC: u32 = 0x7472_6976;
/// The device ID of a block device.
pub const VIRTIO_DEVICE_BLOCK: u32 = 2;
/// QEMU's vendor ID: "QEMU".
pub const VIRTIO_VENDOR_QEMU: u32 = 0x554d_4551;

/// The feature bits the driver turns down: those numbered by
/// `VIRTIO_BLK_F_RO`, `_SCSI`, `_CONFIG_WCE`, `VIRTIO_F_ANY_LAYOUT`,
/// `VIRTIO_RING_F_INDIRECT_DESC` and `_EVENT_IDX`.
pub const REFUSED_FEATURES: u32 = 0x3800_08a0;

/// A block buffer of the disk cache; `prev` and `next` link it into the
/// cache's list by slot.
pub struct Buf {
    pub valid: i32,
    pub disk: i32,
    pub dev: u32,
    pub blockno: u32,
    pub refcnt: u32,
    pub prev: Option<usize>,
    pub next: Option<usize>,
    pub data: [u8; BLOCK_SIZE],
}

/// What the driver keeps of a request in flight.
#[derive(Copy, Clone)]
pub struct Info {
    /// The buffer being read or written, by slot.
    pub b: Option<usize>,
    pub status: u8,
}

/// The header of a block request.
#[derive(Copy, Clone)]
pub struct VirtioBlkReq {
    pub kind: u32,
    pub reserved: u32,
    pub sector: u64,
}

/// The driver's state: the physical pages of the three queue areas, which
/// descriptors are free, and the requests in flight.
pub struct Disk {
    pub desc: u64,
    pub avail: u64,
    pub used: u64,
    pub free: [u8; NUMBER_OF_QUEUES],
    pub used_idx: u16,
    pub info: [Info; NUMBER_OF_QUEUES],
    pub ops: [VirtioBlkReq; NUMBER_OF_QUEUES],
}

/// The driver's state before `virtio_disk_init`: no queue, nothing free.
pub fn new_disk() -> (d: Disk)
    ensures
        d.desc == 0 && d.avail == 0 && d.used == 0,
        d.used_idx == 0,
        forall|i: int| 0 <= i < NUMBER_OF_QUEUES ==> d.free@[i] == 0u8,
{
    Disk {
        desc: 0,
        avail: 0,
        used: 0,
        free: [0u8; 8],
        used_idx: 0,
        info: [Info { b: None, status: 0 }; 8],
        ops: [VirtioBlkReq { kind: 0, reserved: 0, sector: 0 }; 8],
    }
}

/// Why the disk could not be brought up.
#[derive(Copy, Clone, Debug, PartialEq, Eq, Structural)]
pub enum VirtioError {
    /// No slot holds a block device.
    NoDisk,
    /// The device's magic, version, device or vendor ID is wrong.
    ValidationFailed,
    /// The device did not accept the features.
    FeaturesRejected,
    /// Queue 0 is already in use.
    QueueInUse,
    /// The device has no queue 0.
    NoQueue,
    /// Queue 0 holds fewer than `NUMBER_OF_QUEUES` descriptors.
    QueueTooShort,
    /// No page was free for the queue areas.
    OutOfMemory,
}

/// A 32-bit write of `value` to the device register at `addr`.
#[derive(Copy, Clone, Debug, PartialEq, Eq, Structural)]
pub struct MmioWrite {
    pub addr: usize,
    pub value: u32,
}

/// The write of `value` at `offset` from `base`.
pub open spec fn wr(base: usize, offset: usize, value: u32) -> MmioWrite {
    MmioWrite { addr: (base + offset) as usize, value }
}

/// The addresses of the four identification registers of the first slot.
#[derive(Copy, Clone, Debug, PartialEq, Eq, Structural)]
pub struct ProbeAddrs {
    pub magic: usize,
    pub version: usize,
    pub device: usize,
    pub vendor: usize,
}

/// The addresses `virtio_probe` reads and reports: the magic, version,
/// device ID and vendor ID registers of the first virtio-mmio slot.
pub fn virtio_probe() -> (r: ProbeAddrs)
    ensures
        r == (ProbeAddrs {
            magic: (VIRTIO0 + VIRTIO_MMIO_MAGIC_VALUE) as usize,
            version: (VIRTIO0 + VIRTIO_MMIO_VERSION) as usize,
            device: (VIRTIO0 + VIRTIO_MMIO_DEVICE_ID) as usize,
            vendor: (VIRTIO0 + VIRTIO_MMIO_VENDOR_ID) as usize,
        }),
{
    ProbeAddrs {
        magic: VIRTIO0 + VIRTIO_MMIO_MAGIC_VALUE,
        version: VIRTIO0 + VIRTIO_MMIO_VERSION,
        device: VIRTIO0 + VIRTIO_MMIO_DEVICE_ID,
        vendor: VIRTIO0 + VIRTIO_MMIO_VENDOR_ID,
    }
}

/// Base address of slot `slot`.
pub open spec fn slot_base(slot: int) -> int {
    VIRTIO0 + slot * VIRTIO_SLOT_SIZE
}

/// Base address of slot `slot`.
pub fn disk_slot_base(slot: usize) -> (r: usize)
    requires
        slot < NUMBER_OF_SLOTS,
    ensures
        r == slot_base(slot as int),
{
    VIRTIO0 + slot * VIRTIO_SLOT_SIZE
}

/// What the slot scan does next.
#[derive(Copy, Clone, Debug, PartialEq, Eq, Structural)]
pub enum SlotProbe {
    /// The disk is in the slot with this base address.
    Found(usize),
    /// Read the device ID of this slot next.
    Next(usize),
    /// No slot holds a block device.
    NotFound,
}

/// One step of the scan for the disk, which reads the device ID of slot 0,
/// 1, ... and stops at the first block device: slot `slot` read `device_id`.
pub fn probe_slot(slot: usize, device_id: u32) -> (r: SlotProbe)
    requires
        slot < NUMBER_OF_SLOTS,
    ensures
        r == if device_id == VIRTIO_DEVICE_BLOCK {
            SlotProbe::Found(slot_base(slot as int) as usize)
        } else if slot + 1 < NUMBER_OF_SLOTS {
            SlotProbe::Next((slot + 1) as usize)
        } else {
            SlotProbe::NotFound
        },
{
    if device_id == VIRTIO_DEVICE_BLOCK {
        SlotProbe::Found(disk_slot_base(slot))
    } else if slot + 1 < NUMBER_OF_SLOTS {
        SlotProbe::Next(slot + 1)
    } else {
        SlotProbe::NotFound
    }
}

/// The scan stops at slot `slot`: it is the first of `ids` (the device IDs
/// of the slots, in order) that is a block device.
pub open spec fn first_disk(ids: Seq<u32>, slot: int) -> bool {
    &&& 0 <= slot < ids.len()
    &&& ids[slot] == VIRTIO_DEVICE_BLOCK
    &&& forall|j: int| 0 <= j < slot ==> ids[j] != VIRTIO_DEVICE_BLOCK
}

/// Running `probe_slot` from slot 0 over the device IDs `ids` of the
/// slots visits slots 0 to `k`, and at slot `k` ends in the slot that
/// holds the first block device, or finds none when no slot holds one.
pub proof fn lemma_probe_finds_first(ids: Seq<u32>, k: int)
    requires
        ids.len() == NUMBER_OF_SLOTS,
        0 <= k < NUMBER_OF_SLOTS,
        forall|j: int| 0 <= j < k ==> ids[j] != VIRTIO_DEVICE_BLOCK,
    ensures
        ids[k] == VIRTIO_DEVICE_BLOCK ==> first_disk(ids, k),
        ids[k] != VIRTIO_DEVICE_BLOCK && k + 1 == NUMBER_OF_SLOTS ==> forall|j: int| 0 <= j < ids.len() ==> ids[j] != VIRTIO_DEVICE_BLOCK,
{
}

/// The writes after the device's identification registers read `magic`,
/// `version`, `device_id` and `vendor_id`: reset, then acknowledge, then
/// driver; or the device is not a QEMU virtio block device (legacy
/// interface, version 1).
pub fn virtio_identify(base: usize, magic: u32, version: u32, device_id: u32, vendor_id: u32) -> (r: Result<Vec<MmioWrite>, VirtioError>)
    requires
        base + VIRTIO_SLOT_SIZE <= usize::MAX,
    ensures
        !(magic == VIRTIO_MAGIC && version == 1 && device_id == VIRTIO_DEVICE_BLOCK && vendor_id == VIRTIO_VENDOR_QEMU)
            ==> r == Err::<Vec<MmioWrite>, VirtioError>(VirtioError::ValidationFailed),
        (magic == VIRTIO_MAGIC && version == 1 && device_id == VIRTIO_DEVICE_BLOCK && vendor_id == VIRTIO_VENDOR_QEMU)
            ==> (r matches Ok(w) && w@ == seq![
                wr(base, VIRTIO_MMIO_STATUS, 0),
                wr(base, VIRTIO_MMIO_STATUS, VIRTIO_CONFIG_S_ACKNOWLEDGE),
                wr(base, VIRTIO_MMIO_STATUS, VIRTIO_CONFIG_S_ACKNOWLEDGE | VIRTIO_CONFIG_S_DRIVER),
            ]),
{
    if magic != VIRTIO_MAGIC || version != 1 || device_id != VIRTIO_DEVICE_BLOCK || vendor_id != VIRTIO_VENDOR_QEMU {
        return Err(VirtioError::ValidationFailed);
    }
    let mut w: Vec<MmioWrite> = Vec::new();
    let mut status: u32 = 0;
    w.push(MmioWrite { addr: base + VIRTIO_MMIO_STATUS, value: status });
    status = status | VIRTIO_CONFIG_S_ACKNOWLEDGE;
    assert(0u32 | 1u32 == 1u32) by (bit_vector);
    w.push(MmioWrite { addr: base + VIRTIO_MMIO_STATUS, value: status });
    status = status | VIRTIO_CONFIG_S_DRIVER;
    w.push(MmioWrite { addr: base + VIRTIO_MMIO_STATUS, value: status });
    assert(w@ =~= seq![
        wr(base, VIRTIO_MMIO_STATUS, 0),
        wr(base, VIRTIO_MMIO_STATUS, VIRTIO_CONFIG_S_ACKNOWLEDGE),
        wr(base, VIRTIO_MMIO_STATUS, VIRTIO_CONFIG_S_ACKNOWLEDGE | VIRTIO_CONFIG_S_DRIVER),
    ]);
    Ok(w)
}

/// The features the driver takes of those the device offers: all but the
/// refused ones.
pub fn negotiate_features(device_features: u32) -> (r: u32)
    ensures
        r == device_features & !REFUSED_FEATURES,
        r & REFUSED_FEATURES == 0,
        forall|b: u32| b < 32 && (1u32 << b) & REFUSED_FEATURES == 0 ==> (#[trigger] (r & (1u32 << b))) == device_features & (1u32 << b),
{
    let mut features: u64 = device_features as u64;
    features = features & !(1u64 << VIRTIO_BLK_F_RO);
    features = features & !(1u64 << VIRTIO_BLK_F_SCSI);
    features = features & !(1u64 << VIRTIO_BLK_F_CONFIG_WCE);
    features = features & !(1u64 << VIRTIO_F_ANY_LAYOUT);
    features = features & !(1u64 << VIRTIO_RING_F_EVENT_IDX);
    features = features & !(1u64 << VIRTIO_RING_F_INDIRECT_DESC);
    let r = features as u32;
    assert(r == device_features & !0x3800_08a0u32) by (bit_vector)
        requires
            r == ((((((((device_features as u64) & !(1u64 << 5u32)) & !(1u64 << 7u32)) & !(1u64 << 11u32))
                & !(1u64 << 27u32)) & !(1u64 << 29u32)) & !(1u64 << 28u32)) as u32);
    assert(r & 0x3800_08a0u32 == 0) by (bit_vector)
        requires r == device_features & !0x3800_08a0u32;
    assert forall|b: u32| b < 32 && (1u32 << b) & REFUSED_FEATURES == 0 implies (#[trigger] (r & (1u32 << b))) == device_features & (1u32 << b) by {
        assert(r & (1u32 << b) == device_features & (1u32 << b)) by (bit_vector)
            requires
                r == device_features & !0x3800_08a0u32,
                (1u32 << b) & 0x3800_08a0u32 == 0;
    }
    r
}

/// The writes once the device offers `device_features`: the features taken,
/// then the status with FEATURES_OK added.
pub fn virtio_negotiate(base: usize, device_features: u32) -> (w: Vec<MmioWrite>)
    requires
        base + VIRTIO_SLOT_SIZE <= usize::MAX,
    ensures
        w@ == seq![
            wr(base, VIRTIO_MMIO_DRIVER_FEATURES, device_features & !REFUSED_FEATURES),
            wr(base, VIRTIO_MMIO_STATUS, VIRTIO_CONFIG_S_ACKNOWLEDGE | VIRTIO_CONFIG_S_DRIVER | VIRTIO_CONFIG_S_FEATURES_OK),
        ],
{
    let mut w: Vec<MmioWrite> = Vec::new();
    let features = negotiate_features(device_features);
    w.push(MmioWrite { addr: base + VIRTIO_MMIO_DRIVER_FEATURES, value: features });
    let status = VIRTIO_CONFIG_S_ACKNOWLEDGE | VIRTIO_CONFIG_S_DRIVER | VIRTIO_CONFIG_S_FEATURES_OK;
    w.push(MmioWrite { addr: base + VIRTIO_MMIO_STATUS, value: status });
    assert(w@ =~= seq![
        wr(base, VIRTIO_MMIO_DRIVER_FEATURES, device_features & !REFUSED_FEATURES),
        wr(base, VIRTIO_MMIO_STATUS, VIRTIO_CONFIG_S_ACKNOWLEDGE | VIRTIO_CONFIG_S_DRIVER | VIRTIO_CONFIG_S_FEATURES_OK),
    ]);
    w
}

/// The writes once the status register reads back `status`: select queue
/// 0; or the device turned the features down (FEATURES_OK clear).
pub fn virtio_features_ok(base: usize, status: u32) -> (r: Result<Vec<MmioWrite>, VirtioError>)
    requires
        base + VIRTIO_SLOT_SIZE <= usize::MAX,
    ensures
        status & VIRTIO_CONFIG_S_FEATURES_OK == 0 ==> r == Err::<Vec<MmioWrite>, VirtioError>(VirtioError::FeaturesRejected),
        status & VIRTIO_CONFIG_S_FEATURES_OK != 0 ==> (r matches Ok(w) && w@ == seq![wr(base, VIRTIO_MMIO_QUEUE_SEL, 0)]),
{
    if (status & VIRTIO_CONFIG_S_FEATURES_OK) == 0 {
        return Err(VirtioError::FeaturesRejected);
    }
    let mut w: Vec<MmioWrite> = Vec::new();
    w.push(MmioWrite { addr: base + VIRTIO_MMIO_QUEUE_SEL, value: 0 });
    assert(w@ =~= seq![wr(base, VIRTIO_MMIO_QUEUE_SEL, 0)]);
    Ok(w)
}

/// The writes that hand the device its queue, in order: the queue size,
/// the low and high halves of the addresses of the descriptor, driver and
/// device areas, queue ready, and `status` with DRIVER_OK added.
pub open spec fn queue_writes(base: usize, status: u32, desc: u64, avail: u64, used: u64) -> Seq<MmioWrite> {
    seq![
        wr(base, VIRTIO_MMIO_QUEUE_NUM, NUMBER_OF_QUEUES as u32),
        wr(base, VIRTIO_MMIO_QUEUE_DESC_LOW, desc as u32),
        wr(base, VIRTIO_MMIO_QUEUE_DESC_HIGH, (desc >> 32u64) as u32),
        wr(base, VIRTIO_MMIO_DRIVER_DESC_LOW, avail as u32),
        wr(base, VIRTIO_MMIO_DRIVER_DESC_HIGH, (avail >> 32u64) as u32),
        wr(base, VIRTIO_MMIO_DEVICE_DESC_LOW, used as u32),
        wr(base, VIRTIO_MMIO_DEVICE_DESC_HIGH, (used >> 32u64) as u32),
        wr(base, VIRTIO_MMIO_QUEUE_READY, 1),
        wr(base, VIRTIO_MMIO_STATUS, status | VIRTIO_CONFIG_S_DRIVER_OK),
    ]
}

/// Sets up queue 0 once it reads `ready` (queue ready) and `max` (largest
/// queue size), the status register having read back `status`: takes three
/// pages for the descriptor, driver and device areas (the last three on the
/// free list, in that order), zeroes them, marks every descriptor free, and
/// returns the writes that hand the queue to the device.
pub fn virtio_setup_queue(mem: &mut PhysMem, disk: &mut Disk, base: usize, status: u32, ready: u32, max: u32)
    -> (r: Result<Vec<MmioWrite>, VirtioError>)
    requires
        old(mem).wf(),
        base + VIRTIO_SLOT_SIZE <= usize::MAX,
    ensures
        final(mem).wf(),
        final(mem).tables() == old(mem).tables(),
        final(mem).kernel_end() == old(mem).kernel_end(),
        ready != 0 ==> r == Err::<Vec<MmioWrite>, VirtioError>(VirtioError::QueueInUse),
        ready == 0 && max == 0 ==> r == Err::<Vec<MmioWrite>, VirtioError>(VirtioError::NoQueue),
        ready == 0 && 0 < max < NUMBER_OF_QUEUES ==> r == Err::<Vec<MmioWrite>, VirtioError>(VirtioError::QueueTooShort),
        (ready != 0 || max < NUMBER_OF_QUEUES) ==> *final(mem) == *old(mem) && *final(disk) == *old(disk),
        ready == 0 && max >= NUMBER_OF_QUEUES && old(mem).free().len() < 3 ==> {
            &&& r == Err::<Vec<MmioWrite>, VirtioError>(VirtioError::OutOfMemory)
            &&& final(mem).free().len() == 0
            &&& *final(disk) == *old(disk)
        },
        ready == 0 && max >= NUMBER_OF_QUEUES && old(mem).free().len() >= 3 ==> {
            let f = old(mem).free();
            let n = f.len();
            &&& r matches Ok(w) && w@ == queue_writes(base, status, f[n - 1], f[n - 2], f[n - 3])
            &&& final(mem).free() == f.subrange(0, n - 3)
            &&& final(mem).contents() == old(mem).contents().insert(f[n - 1], zero_page()).insert(f[n - 2], zero_page()).insert(f[n - 3], zero_page())
            &&& final(disk).desc == f[n - 1]
            &&& final(disk).avail == f[n - 2]
            &&& final(disk).used == f[n - 3]
            &&& forall|i: int| 0 <= i < NUMBER_OF_QUEUES ==> final(disk).free@[i] == 1u8
            &&& final(disk).used_idx == old(disk).used_idx
            &&& final(disk).info == old(disk).info
            &&& final(disk).ops == old(disk).ops
        },
{
    if ready != 0 {
        return Err(VirtioError::QueueInUse);
    }
    if max == 0 {
        return Err(VirtioError::NoQueue);
    }
    if max < 8 {
        return Err(VirtioError::QueueTooShort);
    }
    let ghost f = old(mem).free();
    proof { old(mem).lemma_wf(); }
    let desc = match k_alloc(mem) {
        Some(run) => run.addr,
        None => return Err(VirtioError::OutOfMemory),
    };
    let avail = match k_alloc(mem) {
        Some(run) => run.addr,
        None => return Err(VirtioError::OutOfMemory),
    };
    let used = match k_alloc(mem) {
        Some(run) => run.addr,
        None => return Err(VirtioError::OutOfMemory),
    };
    proof {
        let n = f.len();
        assert(f.drop_last().drop_last().drop_last() =~= f.subrange(0, n - 3));
        assert(f[n - 1] != f[n - 2] && f[n - 2] != f[n - 3] && f[n - 1] != f[n - 3]);
    }
    mem.zero_frame(desc);
    mem.zero_frame(avail);
    mem.zero_frame(used);
    proof {
        let n = f.len();
        assert(mem.contents() =~= old(mem).contents().insert(f[n - 1], zero_page()).insert(f[n - 2], zero_page()).insert(f[n - 3], zero_page()));
    }
    let mut w: Vec<MmioWrite> = Vec::new();
    w.push(MmioWrite { addr: base + VIRTIO_MMIO_QUEUE_NUM, value: 8 });
    w.push(MmioWrite { addr: base + VIRTIO_MMIO_QUEUE_DESC_LOW, value: desc as u32 });
    w.push(MmioWrite { addr: base + VIRTIO_MMIO_QUEUE_DESC_HIGH, value: (desc >> 32u64) as u32 });
    w.push(MmioWrite { addr: base + VIRTIO_MMIO_DRIVER_DESC_LOW, value: avail as u32 });
    w.push(MmioWrite { addr: base + VIRTIO_MMIO_DRIVER_DESC_HIGH, value: (avail >> 32u64) as u32 });
    w.push(MmioWrite { addr: base + VIRTIO_MMIO_DEVICE_DESC_LOW, value: used as u32 });
    w.push(MmioWrite { addr: base + VIRTIO_MMIO_DEVICE_DESC_HIGH, value: (used >> 32u64) as u32 });
    disk.desc = desc;
    disk.avail = avail;
    disk.used = used;
    disk.free = [1u8; 8];
    w.push(MmioWrite { addr: base + VIRTIO_MMIO_QUEUE_READY, value: 1 });
    w.push(MmioWrite { addr: base + VIRTIO_MMIO_STATUS, value: status | VIRTIO_CONFIG_S_DRIVER_OK });
    assert(w@ =~= queue_writes(base, status, desc, avail, used));
    Ok(w)
}

} // verus!
