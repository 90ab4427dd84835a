use vstd::prelude::*;
use crate::memory::{PAGE_SIZE, RAM_START, RAM_END, WORDS_PER_PAGE, ALLOC_JUNK, PhysMem, Run, is_frame_addr, k_alloc, pg_round_up, round_up_spec};
use crate::process::Process;
use crate::pt_spec::{
    tree_kept, pt_disjoint, lemma_agree, lemma_disjoint_sym, lemma_leaf_write, lemma_leaf_others, lemma_same_page, table_loc, pte_view, blocked, blocked_at, pt_wf, others_kept, install_step, lemma_install,
    lemma_install_others, lemma_others_refl, lemma_others_trans, lemma_data_others, leaf,
};

verus! {

/// Bit 0 of a descriptor: the descriptor is valid.
pub const DESC_VALID: u64 = 1;
/// Bit 1 of a descriptor at levels 0 to 2: it points to a next-level table.
pub const DESC_TABLE: u64 = 2;
/// Bit 1 of a descriptor at level 3: it maps a page.
pub const DESC_PAGE: u64 = 2;
/// Access flag.
pub const AF: u64 = 0x400;
/// Memory attribute index 0 (normal memory).
pub const ATTRIDX0: u64 = 0;
/// Memory attribute index 1 (device memory).
pub const ATTRIDX1: u64 = 0x4;
/// EL1 read/write, no EL0 access.
pub const AP_EL1_RW_EL0_NONE: u64 = 0;
/// EL1 and EL0 read/write.
pub const AP_EL1_RW_EL0_RW: u64 = 0x40;
/// EL1 read/write, EL0 read-only.
pub const AP_EL1_RW_EL0_RX: u64 = 0x80;
/// EL1 and EL0 read-only.
pub const AP_EL1_RX_EL0_RX: u64 = 0xC0;
/// EL1 read-only, no EL0 access.
pub const AP_EL1_RO_EL0_NONE: u64 = 0x80;
/// EL1 and EL0 read-only.
pub const AP_EL1_RO_EL0_RO: u64 = 0xC0;
/// Access-permission bits of a leaf descriptor.
pub const USER_AP_MASK: u64 = 0xC0;
/// Privileged execute-never.
pub const PXN: u64 = 0x20_0000_0000_0000;
/// Unprivileged execute-never.
pub const UXN: u64 = 0x40_0000_0000_0000;
/// Output-address bits [47:12] of a descriptor.
pub const ADDR_MASK: u64 = 0x0000_FFFF_FFFF_F000;
/// Attribute bits of a leaf descriptor (everything but the address).
pub const LEAF_ATTR_MASK: u64 = 0xFFFF_0000_0000_0FFF;

/// One beyond the highest lower-half virtual address in use.
pub const MAX_VA: u64 = 0x8000_0000_0000;
/// Virtual address of the trap entry/exit trampoline page.
pub const TRAMPOLINE: u64 = 0x7FFF_FFFF_F000;
/// Virtual address of a process's trap frame page.
pub const TRAP_FRAME: u64 = 0x7FFF_FFFF_E000;
/// Pages in a kernel stack.
pub const KSTACK_PAGES: u64 = 2;
/// Unmapped guard pages below each kernel stack.
pub const KSTACK_GUARD_PAGES: u64 = 1;
/// Bytes in a kernel stack.
pub const KSTACK_SIZE: u64 = 0x2000;
/// Physical load address of the kernel image.
pub const KERNEL_PHYS_BASE: u64 = 0x4008_0000;
/// GIC distributor registers.
pub const GICD_BASE: u64 = 0x0800_0000;
/// GIC CPU-interface registers.
pub const GICC_BASE: u64 = 0x0801_0000;
/// Size of the GIC distributor register block.
pub const GICD_SIZE: u64 = 0x10000;
/// Size of the GIC CPU-interface register block.
pub const GICC_SIZE: u64 = 0x10000;
/// The first virtio MMIO device.
pub const VIRTIO0_BASE: u64 = 0x0a00_0000;
/// The PL011 UART.
pub const UART0_BASE: u64 = 0x0900_0000;

/// Errors of the mapping operations.
#[derive(Debug, Clone, Copy, PartialEq, Eq)]
pub enum MapError {
    ZeroSize,
    UnalignedAddress,
    UnalignedSize,
    WalkFailed,
    AlreadyMapped,
    AllocationFailed,
}

/// One translation table: 512 descriptors.
pub struct PageTable {
    pub entries: Vec<u64>,
}

// ---------------------------------------------------------------------------
// Descriptor and index arithmetic

/// Index into the level-`l` table for `va` (bits [47-9l : 39-9l]).
pub open spec fn lidx(l: int, va: u64) -> u64 {
    if l <= 0 {
        (va >> 39u64) & 0x1ffu64
    } else if l == 1 {
        (va >> 30u64) & 0x1ffu64
    } else if l == 2 {
        (va >> 21u64) & 0x1ffu64
    } else {
        (va >> 12u64) & 0x1ffu64
    }
}

/// The indices used by the first `l` levels of a walk for `va`, as one number.
/// Two addresses with the same `pfx(4, ..)` lie in the same page.
pub open spec fn pfx(l: int, va: u64) -> u64 {
    if l <= 0 {
        0
    } else if l == 1 {
        (va >> 39u64) & 0x1ffu64
    } else if l == 2 {
        (va >> 30u64) & 0x3ffffu64
    } else if l == 3 {
        (va >> 21u64) & 0x7ff_ffffu64
    } else {
        (va >> 12u64) & 0xf_ffff_ffffu64
    }
}

/// The virtual page number of `va` (the 36 index bits).
pub open spec fn vpn(va: u64) -> int {
    pfx(4, va) as int
}

/// A descriptor with its valid bit set.
pub open spec fn is_valid(e: u64) -> bool {
    e & DESC_VALID != 0
}

/// A descriptor with its table bit set: at levels 0 to 2 it points to a
/// next-level table.
pub open spec fn is_table_desc(e: u64) -> bool {
    e & DESC_TABLE != 0
}

/// The leaf descriptor that maps the page at `pa` with attributes `perm`.
pub open spec fn leaf_entry(pa: u64, perm: u64) -> u64 {
    (pa & ADDR_MASK) | DESC_VALID | DESC_PAGE | perm
}

/// The table descriptor that points to the table at `pa`.
pub open spec fn table_entry(pa: u64) -> u64 {
    (pa & ADDR_MASK) | DESC_VALID | DESC_TABLE
}

/// An address the walker accepts: bits [63:48] all clear or all set.
pub open spec fn canonical(va: u64) -> bool {
    va < 0x1_0000_0000_0000 || va >= 0xFFFF_0000_0000_0000
}

proof fn lemma_pfx_step(l: int, a: u64, b: u64)
    requires
        0 <= l < 4,
    ensures
        (pfx(l + 1, a) == pfx(l + 1, b)) <==> (pfx(l, a) == pfx(l, b) && lidx(l, a) == lidx(l, b)),
{
    lemma_pfx_bits(a, b);
}

/// The bit facts behind `lemma_pfx_step`, one per level.
proof fn lemma_pfx_bits(a: u64, b: u64)
    by (bit_vector)
    ensures
        ((a >> 39u64) & 0x1ffu64 == (b >> 39u64) & 0x1ffu64) <==> (0u64 == 0u64 && (a >> 39u64) & 0x1ffu64 == (b >> 39u64) & 0x1ffu64),
        ((a >> 30u64) & 0x3ffffu64 == (b >> 30u64) & 0x3ffffu64) <==> ((a >> 39u64) & 0x1ffu64 == (b >> 39u64) & 0x1ffu64 && (a >> 30u64) & 0x1ffu64 == (b >> 30u64) & 0x1ffu64),
        ((a >> 21u64) & 0x7ff_ffffu64 == (b >> 21u64) & 0x7ff_ffffu64) <==> ((a >> 30u64) & 0x3ffffu64 == (b >> 30u64) & 0x3ffffu64 && (a >> 21u64) & 0x1ffu64 == (b >> 21u64) & 0x1ffu64),
        ((a >> 12u64) & 0xf_ffff_ffffu64 == (b >> 12u64) & 0xf_ffff_ffffu64) <==> ((a >> 21u64) & 0x7ff_ffffu64 == (b >> 21u64) & 0x7ff_ffffu64 && (a >> 12u64) & 0x1ffu64 == (b >> 12u64) & 0x1ffu64),
{
}

/// Sharing the first `l + 1` indices is sharing the first `l` and index `l`.
pub proof fn lemma_pfx_step_pub(l: int, a: u64, b: u64)
    requires
        0 <= l < 4,
    ensures
        (pfx(l + 1, a) == pfx(l + 1, b)) <==> (pfx(l, a) == pfx(l, b) && lidx(l, a) == lidx(l, b)),
{
    lemma_pfx_step(l, a, b);
}

/// Every table index is below 512.
pub proof fn lemma_lidx_bound(l: int, va: u64)
    ensures
        lidx(l, va) < 512,
{
    assert((va >> 39u64) & 0x1ffu64 < 512 && (va >> 30u64) & 0x1ffu64 < 512
        && (va >> 21u64) & 0x1ffu64 < 512 && (va >> 12u64) & 0x1ffu64 < 512) by (bit_vector);
}

/// A leaf descriptor is valid whatever its attributes.
pub proof fn lemma_valid_leaf(pa: u64, perm: u64)
    ensures
        is_valid(leaf_entry(pa, perm)),
{
    assert(((pa & 0x0000_FFFF_FFFF_F000u64) | 1u64 | 2u64 | perm) & 1u64 != 0) by (bit_vector);
}

/// A leaf descriptor's address bits are its page's address, when the
/// attributes hold no address bits.
pub proof fn lemma_leaf_addr(pa: u64, perm: u64)
    requires
        pa % 4096 == 0,
        pa < 0x1_0000_0000_0000,
        perm & ADDR_MASK == 0,
    ensures
        leaf_entry(pa, perm) & ADDR_MASK == pa,
{
    assert(pa % 4096 == 0 && pa < 0x1_0000_0000_0000 && perm & 0x0000_FFFF_FFFF_F000u64 == 0 ==>
        ((pa & 0x0000_FFFF_FFFF_F000u64) | 1u64 | 2u64 | perm) & 0x0000_FFFF_FFFF_F000u64 == pa) by (bit_vector);
}

/// Below 2^48 the page number is the address over the page size.
pub proof fn lemma_vpn_div(a: u64)
    requires
        a < 0x1_0000_0000_0000,
    ensures
        vpn(a) == a / 4096,
{
    assert((a >> 12u64) & 0xf_ffff_ffffu64 == a / 4096) by (bit_vector)
        requires a < 0x1_0000_0000_0000u64;
}

/// The address bits of any descriptor are a page-aligned address below 2^48.
pub proof fn lemma_addr_bits(e: u64)
    ensures
        (e & ADDR_MASK) % 4096 == 0,
        (e & ADDR_MASK) < 0x1_0000_0000_0000,
        (e & ADDR_MASK) + 4096 <= u64::MAX,
{
    assert((e & 0x0000_FFFF_FFFF_F000u64) % 4096 == 0 && (e & 0x0000_FFFF_FFFF_F000u64) < 0x1_0000_0000_0000u64) by (bit_vector);
}

/// A zero descriptor is invalid.
proof fn lemma_zero_invalid()
    by (bit_vector)
    ensures
        0u64 & 1u64 == 0,
{
}

/// Descriptor facts for a table or page at a page-aligned address below 2^48.
proof fn lemma_entry_bits(pa: u64, perm: u64)
    requires
        pa % 4096 == 0,
        pa < 0x1_0000_0000_0000,
    ensures
        pa & ADDR_MASK == pa,
        table_entry(pa) & ADDR_MASK == pa,
        is_valid(table_entry(pa)),
        is_table_desc(table_entry(pa)),
        is_valid(leaf_entry(pa, perm)),
        0u64 & DESC_VALID == 0,
{
    assert({
        &&& pa % 4096 == 0 && pa < 0x1_0000_0000_0000 ==> pa & 0x0000_FFFF_FFFF_F000u64 == pa
        &&& pa % 4096 == 0 && pa < 0x1_0000_0000_0000 ==> ((pa & 0x0000_FFFF_FFFF_F000u64) | 1u64 | 2u64) & 0x0000_FFFF_FFFF_F000u64 == pa
        &&& ((pa & 0x0000_FFFF_FFFF_F000u64) | 1u64 | 2u64) & 1u64 != 0
        &&& ((pa & 0x0000_FFFF_FFFF_F000u64) | 1u64 | 2u64) & 2u64 != 0
        &&& ((pa & 0x0000_FFFF_FFFF_F000u64) | 1u64 | 2u64 | perm) & 1u64 != 0
        &&& 0u64 & 1u64 == 0
    }) by (bit_vector);
}

// ---------------------------------------------------------------------------
// Executable helpers

/// Index into the level-`level` table for `va`.
pub fn level_index(level: usize, va: u64) -> (r: usize)
    requires
        level < 4,
    ensures
        r == lidx(level as int, va),
        r < 512,
{
    let shift: u64 = if level == 0 {
        39
    } else if level == 1 {
        30
    } else if level == 2 {
        21
    } else {
        12
    };
    let i = (va >> shift) & 0x1FF;
    assert((va >> shift) & 0x1FFu64 <= 0x1FFu64) by (bit_vector);
    i as usize
}

/// The descriptor address bits for the page at `pa`.
pub fn page_address_to_page_entry(pa: u64) -> (r: u64)
    ensures
        r == pa & ADDR_MASK,
{
    pa & ADDR_MASK
}

/// The physical address that descriptor `pte` points to.
pub fn pte_to_page_address(pte: u64) -> (r: u64)
    ensures
        r == pte & ADDR_MASK,
{
    pte & ADDR_MASK
}

/// Whether `va` has bits [63:48] all clear or all set.
pub fn is_canonical_addr(va: u64) -> (r: bool)
    ensures
        r == canonical(va),
{
    let is_lower = (va & 0xFFFF_0000_0000_0000) == 0;
    let is_upper = (va & 0xFFFF_0000_0000_0000) == 0xFFFF_0000_0000_0000;
    assert((((va & 0xFFFF_0000_0000_0000u64) == 0) <==> va < 0x1_0000_0000_0000u64)
        && (((va & 0xFFFF_0000_0000_0000u64) == 0xFFFF_0000_0000_0000u64) <==> va >= 0xFFFF_0000_0000_0000u64)) by (bit_vector);
    is_lower || is_upper
}

/// Virtual address of the bottom of process `p`'s kernel stack; each stack
/// sits below the trampoline with one unmapped guard page under it.
pub fn k_stack(p: usize) -> (r: u64)
    requires
        p < usize::MAX,
        (p + 1) * ((KSTACK_PAGES + KSTACK_GUARD_PAGES) * PAGE_SIZE) <= TRAMPOLINE,
    ensures
        r == TRAMPOLINE - (p + 1) * ((KSTACK_PAGES + KSTACK_GUARD_PAGES) * PAGE_SIZE),
{
    let stride_pages = KSTACK_PAGES + KSTACK_GUARD_PAGES;
    assert(p + 1 <= 0x7FFF_FFFF_F000 && (p + 1) * 3 <= 0x7FFF_FFFF_F000) by (nonlinear_arith)
        requires (p + 1) * 12288 <= 0x7FFF_FFFF_F000;
    assert((p + 1) * 3 * 4096 == (p + 1) * 12288) by (nonlinear_arith);
    TRAMPOLINE - ((p + 1) as u64) * stride_pages * (PAGE_SIZE as u64)
}

/// `[va, va + size)` lies in one canonical half of the address space.
pub open spec fn range_canonical(va: u64, size: u64) -> bool {
    va + size <= 0x1_0000_0000_0000 || va >= 0xFFFF_0000_0000_0000
}

/// Page `k` of a canonical page-aligned range has virtual page number
/// `vpn(va) + k`.
pub proof fn lemma_vpn_offset(va: u64, size: u64, k: u64)
    requires
        va % 4096 == 0,
        va + size <= u64::MAX,
        range_canonical(va, size),
        k * 4096 < size,
    ensures
        vpn((va + k * 4096) as u64) == vpn(va) + k,
        canonical((va + k * 4096) as u64),
{
    let a: u64 = (va + k * 4096) as u64;
    if va + size <= 0x1_0000_0000_0000 {
        assert((a >> 12u64) & 0xf_ffff_ffffu64 == ((va >> 12u64) & 0xf_ffff_ffffu64) + k) by (bit_vector)
            requires
                va % 4096 == 0,
                a == va + k * 4096,
                k * 4096 < size,
                va + size <= 0x1_0000_0000_0000u64;
    } else {
        assert((a >> 12u64) & 0xf_ffff_ffffu64 == ((va >> 12u64) & 0xf_ffff_ffffu64) + k) by (bit_vector)
            requires
                va % 4096 == 0,
                a == va + k * 4096,
                k * 4096 < size,
                va + size <= 0xffff_ffff_ffff_ffffu64,
                va >= 0xFFFF_0000_0000_0000u64;
    }
}

// ---------------------------------------------------------------------------
// Walking and filling translation tables

/// `new` differs from `old` only in translation tables: frames taken off the
/// end of the free list became tables, and no other frame changed.
pub open spec fn table_step(old: PhysMem, new: PhysMem) -> bool {
    &&& new.kernel_end() == old.kernel_end()
    &&& new.free().len() <= old.free().len()
    &&& new.free() == old.free().subrange(0, new.free().len() as int)
    &&& old.tables().subset_of(new.tables())
    &&& forall|f: u64| #[trigger] new.tables().contains(f) ==> old.tables().contains(f) || old.free().contains(f)
    &&& forall|f: u64| !new.tables().contains(f) ==> (#[trigger] new.contents().contains_key(f)) == old.contents().contains_key(f)
    &&& forall|f: u64| !new.tables().contains(f) ==> #[trigger] new.contents()[f] == old.contents()[f]
}

/// Two steps that only touch tables make one such step.
pub proof fn lemma_table_step_trans(a: PhysMem, b: PhysMem, c: PhysMem)
    requires
        table_step(a, b),
        table_step(b, c),
    ensures
        table_step(a, c),
{
    assert(c.free() =~= a.free().subrange(0, c.free().len() as int));
    assert forall|f: u64| #[trigger] c.tables().contains(f) implies a.tables().contains(f) || a.free().contains(f) by {
        if !b.tables().contains(f) {
            let k = choose|k: int| 0 <= k < b.free().len() && b.free()[k] == f;
            assert(a.free()[k] == f);
        }
    }
}

/// The two memories hold the same frames, free list and tables.
pub open spec fn same_mem(a: PhysMem, b: PhysMem) -> bool {
    &&& a.contents() == b.contents()
    &&& a.free() == b.free()
    &&& a.tables() == b.tables()
    &&& a.kernel_end() == b.kernel_end()
}

/// The effect of a walk on memory, on the tree at `root` and on every other
/// tree.
pub open spec fn walk_effect(old: PhysMem, new: PhysMem, root: u64) -> bool {
    &&& new.wf()
    &&& pt_wf(new.contents(), new.tables(), root)
    &&& table_step(old, new)
    &&& others_kept(old.contents(), old.tables(), new.contents(), new.tables(), root)
    &&& forall|v: u64| #[trigger] pte_view(new.contents(), root, v) == pte_view(old.contents(), root, v)
    &&& forall|v: u64| #[trigger] blocked(new.contents(), root, v) == blocked(old.contents(), root, v)
}

/// Two walks of the tree at `root` make one walk's effect.
pub proof fn lemma_walk_effect_trans(a: PhysMem, b: PhysMem, c: PhysMem, root: u64)
    requires
        walk_effect(a, b, root),
        walk_effect(b, c, root),
    ensures
        walk_effect(a, c, root),
{
    lemma_table_step_trans(a, b, c);
    lemma_others_trans(a.contents(), a.tables(), b.contents(), b.tables(), c.contents(), c.tables(), root);
}

proof fn lemma_loc_none_after(m: Map<u64, Seq<u64>>, root: u64, va: u64, k: int, j: int)
    requires
        0 <= k <= j,
        table_loc(m, root, va, k) is None,
    ensures
        table_loc(m, root, va, j) is None,
    decreases j - k,
{
    if j > k {
        lemma_loc_none_after(m, root, va, k, j - 1);
    }
}

/// Finds the level-3 descriptor slot for `va` in the tree at `root`,
/// installing zeroed tables where the walk meets an invalid descriptor.
/// Returns the table and the index of the slot.
fn walk(mem: &mut PhysMem, root: u64, va: u64) -> (r: Result<(u64, usize), MapError>)
    requires
        old(mem).wf(),
        pt_wf(old(mem).contents(), old(mem).tables(), root),
        canonical(va),
    ensures
        walk_effect(*old(mem), *final(mem), root),
        match r {
            Ok((t, i)) => {
                &&& table_loc(final(mem).contents(), root, va, 3) == Some(t)
                &&& i == lidx(3, va)
                &&& !blocked(old(mem).contents(), root, va)
            },
            Err(MapError::WalkFailed) => blocked(old(mem).contents(), root, va),
            Err(MapError::AllocationFailed) => final(mem).free().len() == 0 && !blocked(old(mem).contents(), root, va),
            Err(_) => false,
        },
        !blocked(old(mem).contents(), root, va) && old(mem).free().len() >= 3 ==> r is Ok,
        final(mem).free().len() + 3 >= old(mem).free().len(),
        table_loc(old(mem).contents(), root, va, 3) is Some ==> {
            &&& r == Ok::<(u64, usize), MapError>((table_loc(old(mem).contents(), root, va, 3).unwrap(), lidx(3, va) as usize))
            &&& same_mem(*old(mem), *final(mem))
        },
{
    let ghost old_mem = *mem;
    let ghost mut fresh: bool = false;
    let mut t = root;
    proof {
        lemma_others_refl(mem.contents(), mem.tables(), root);
        assert(mem.free() =~= old_mem.free().subrange(0, mem.free().len() as int));
        assert(table_loc(mem.contents(), root, va, 0) == Some(root));
    }
    for level in 0..3
        invariant
            mem.wf(),
            walk_effect(old_mem, *mem, root),
            old_mem == *old(mem),
            table_loc(mem.contents(), root, va, level as int) == Some(t),
            forall|k: int| 0 <= k < level ==> !#[trigger] blocked_at(old_mem.contents(), root, va, k),
            !fresh ==> same_mem(old_mem, *mem),
            table_loc(old_mem.contents(), root, va, 3) is Some ==> !fresh,
            fresh ==> table_loc(old_mem.contents(), root, va, level as int) is None,
            fresh ==> mem.contents()[t] == Seq::new(512, |i: int| 0u64),
            old_mem.free().len() - mem.free().len() <= level,
    {
        let idx = level_index(level, va);
        proof {
            mem.lemma_wf();
            assert(mem.tables().contains(t));
            if fresh {
                lemma_lidx_bound(level as int, va);
            }
        }
        let e = mem.read_word(t, idx);
        if (e & DESC_VALID) != 0 {
            if (e & DESC_TABLE) == 0 {
                proof {
                    assert(!fresh) by {
                        if fresh { lemma_zero_invalid(); }
                    }
                    assert(blocked_at(old_mem.contents(), root, va, level as int));
                    assert(table_loc(old_mem.contents(), root, va, level as int + 1) is None);
                    lemma_loc_none_after(old_mem.contents(), root, va, level as int + 1, 3);
                }
                return Err(MapError::WalkFailed);
            }
            proof {
                assert(!fresh) by {
                    if fresh { lemma_zero_invalid(); }
                }
                assert(!blocked_at(old_mem.contents(), root, va, level as int));
            }
            t = pte_to_page_address(e);
        } else {
            proof {
                if !fresh {
                    assert(!blocked_at(old_mem.contents(), root, va, level as int));
                    assert(table_loc(old_mem.contents(), root, va, level as int + 1) is None);
                    if table_loc(old_mem.contents(), root, va, 3) is Some {
                        lemma_loc_none_after(old_mem.contents(), root, va, level as int + 1, 3);
                    }
                } else {
                    assert(!blocked_at(old_mem.contents(), root, va, level as int));
                    assert(table_loc(old_mem.contents(), root, va, level as int + 1) is None);
                }
            }
            let ghost before = *mem;
            let alloc = k_alloc(mem);
            match alloc {
                None => {
                    proof {
                        assert(!blocked(old_mem.contents(), root, va)) by {
                            assert(!blocked_at(old_mem.contents(), root, va, 0));
                            assert(!blocked_at(old_mem.contents(), root, va, 1));
                            assert(!blocked_at(old_mem.contents(), root, va, 2));
                        }
                    }
                    return Err(MapError::AllocationFailed);
                },
                Some(run) => {
                    let next = run.addr;
                    proof {
                        before.lemma_wf();
                        let k = before.free().len() - 1;
                        assert(before.free()[k] == next);
                        assert(is_frame_addr(next));
                        assert(!before.tables().contains(next));
                        lemma_entry_bits(next, 0);
                    }
                    mem.zero_frame(next);
                    let desc = page_address_to_page_entry(next) | DESC_VALID | DESC_TABLE;
                    mem.write_word(t, idx, desc);
                    mem.mark_table(next);
                    proof {
                        let m = before.contents();
                        let m2 = mem.contents();
                        assert(t != next);
                        assert forall|x: u64| x != t && x != next implies #[trigger] m2[x] == m[x] by {}
                        assert(m2[next] == Seq::new(512, |i: int| 0u64));
                        assert(install_step(m, m2, before.tables(), root, va, level as int, t, next));
                        lemma_install(m, m2, before.tables(), root, va, level as int, t, next);
                        lemma_install_others(m, m2, before.tables(), root, va, level as int, t, next);
                        assert(table_step(before, *mem)) by {
                            assert(mem.free() =~= before.free().subrange(0, mem.free().len() as int));
                            assert(before.free().contains(next)) by {
                                assert(before.free()[before.free().len() - 1] == next);
                            }
                        }
                        assert(walk_effect(before, *mem, root));
                        lemma_walk_effect_trans(old_mem, before, *mem, root);
                        fresh = true;
                    }
                    t = next;
                },
            }
        }
    }
    proof {
        assert(!blocked(old_mem.contents(), root, va)) by {
            assert(!blocked_at(old_mem.contents(), root, va, 0));
            assert(!blocked_at(old_mem.contents(), root, va, 1));
            assert(!blocked_at(old_mem.contents(), root, va, 2));
        }
    }
    Ok((t, level_index(3, va)))
}

/// The argument check `map_pages` makes before it touches any table.
pub open spec fn map_args_error(va: u64, pa: u64, size: u64) -> Option<MapError> {
    if size == 0 {
        Some(MapError::ZeroSize)
    } else if va % 4096 != 0 || pa % 4096 != 0 {
        Some(MapError::UnalignedAddress)
    } else if size % 4096 != 0 {
        Some(MapError::UnalignedSize)
    } else {
        None
    }
}

/// Whether the page of `v` is one of the `n` pages from `va` on.
pub open spec fn in_pages(va: u64, n: int, v: u64) -> bool {
    vpn(va) <= vpn(v) < vpn(va) + n
}

/// The physical page that the page of `v` maps to when `n` pages from `va`
/// map to consecutive pages from `pa`.
pub open spec fn page_target(va: u64, pa: u64, v: u64) -> u64 {
    (pa + (vpn(v) - vpn(va)) * 4096) as u64
}

/// What `map_pages` needs of its arguments beyond the checks it makes.
pub open spec fn map_pages_pre(mem: PhysMem, root: u64, va: u64, pa: u64, size: u64) -> bool {
    &&& mem.wf()
    &&& pt_wf(mem.contents(), mem.tables(), root)
    &&& map_args_error(va, pa, size) is None ==> {
        &&& va + size <= u64::MAX
        &&& pa + size <= u64::MAX
        &&& range_canonical(va, size)
    }
}

/// What every `map_pages` call that passed its argument check keeps:
/// only the tree at `root` changes, and only for the `n` pages from `va` on.
pub open spec fn map_base(old: PhysMem, new: PhysMem, root: u64, va: u64, n: int) -> bool {
    &&& new.wf()
    &&& pt_wf(new.contents(), new.tables(), root)
    &&& table_step(old, new)
    &&& others_kept(old.contents(), old.tables(), new.contents(), new.tables(), root)
    &&& forall|v: u64| #[trigger] blocked(new.contents(), root, v) == blocked(old.contents(), root, v)
    &&& forall|v: u64| !in_pages(va, n, v) ==> #[trigger] pte_view(new.contents(), root, v) == pte_view(old.contents(), root, v)
}

/// The page of `v` went from unmapped (and reachable) to mapping its target.
pub open spec fn newly_mapped(old: PhysMem, new: PhysMem, root: u64, va: u64, pa: u64, perm: u64, v: u64) -> bool {
    &&& pte_view(new.contents(), root, v) == Some(leaf_entry(page_target(va, pa, v), perm))
    &&& pte_view(old.contents(), root, v) is None
    &&& !blocked(old.contents(), root, v)
}

/// The first `done` of the `n` pages from `va` are newly mapped and the rest
/// are unchanged.
pub open spec fn map_effect(old: PhysMem, new: PhysMem, root: u64, va: u64, pa: u64, n: int, perm: u64, done: int) -> bool {
    &&& map_base(old, new, root, va, n)
    &&& forall|v: u64| in_pages(va, done, v) ==> #[trigger] newly_mapped(old, new, root, va, pa, perm, v)
    &&& forall|v: u64| in_pages(va, n, v) && !in_pages(va, done, v) ==> #[trigger] pte_view(new.contents(), root, v) == pte_view(old.contents(), root, v)
}

proof fn lemma_map_then_walk(a: PhysMem, b: PhysMem, c: PhysMem, root: u64, va: u64, pa: u64, n: int, perm: u64, done: int)
    requires
        map_effect(a, b, root, va, pa, n, perm, done),
        walk_effect(b, c, root),
    ensures
        map_effect(a, c, root, va, pa, n, perm, done),
{
    lemma_table_step_trans(a, b, c);
    lemma_others_trans(a.contents(), a.tables(), b.contents(), b.tables(), c.contents(), c.tables(), root);
    assert forall|v: u64| in_pages(va, done, v) implies #[trigger] newly_mapped(a, c, root, va, pa, perm, v) by {
        assert(newly_mapped(a, b, root, va, pa, perm, v));
        assert(pte_view(c.contents(), root, v) == pte_view(b.contents(), root, v));
    }
}

/// What `kvm_translate` gives back for a page that `map_pages` mapped
/// (from `va` onto `pa`, with attributes `perm` that hold no address bits):
/// the physical address the page of `v` was mapped to, plus `v`'s offset in
/// its page, which is `pa` plus the distance of `v` from `va`.
pub proof fn lemma_translate_after_map(old: PhysMem, new: PhysMem, root: u64, va: u64, pa: u64, perm: u64, v: u64)
    requires
        newly_mapped(old, new, root, va, pa, perm, v),
        va % 4096 == 0,
        pa % 4096 == 0,
        va <= v,
        v < 0x1_0000_0000_0000 || va >= 0xFFFF_0000_0000_0000,
        pa + (v - va) < 0x1_0000_0000_0000,
        perm & ADDR_MASK == 0,
    ensures
        pte_view(new.contents(), root, v) matches Some(e) && (e & ADDR_MASK) + v % 4096 == pa + (v - va),
{
    let d: u64 = (v - va) as u64;
    assert((v >> 12u64) & 0xf_ffff_ffffu64 == ((va >> 12u64) & 0xf_ffff_ffffu64) + d / 4096) by (bit_vector)
        requires
            va % 4096 == 0,
            va <= v,
            d == v - va,
            v < 0x1_0000_0000_0000u64 || va >= 0xFFFF_0000_0000_0000u64;
    let t = page_target(va, pa, v);
    assert(t == pa + (d / 4096) * 4096);
    assert(d % 4096 == v % 4096 && (d / 4096) * 4096 + d % 4096 == d) by (nonlinear_arith)
        requires d == v - va, va % 4096 == 0, va <= v;
    assert(t % 4096 == 0) by (nonlinear_arith)
        requires t == pa + (d / 4096) * 4096, pa % 4096 == 0;
    lemma_leaf_addr(t, perm);
}

/// The physical address `va` translates to in the tree at `root`: the frame
/// of its valid leaf plus `va`'s offset in its page.
pub open spec fn translation(m: Map<u64, Seq<u64>>, root: u64, va: u64) -> Option<u64> {
    match pte_view(m, root, va) {
        Some(e) => Some(((e & ADDR_MASK) + va % 4096) as u64),
        None => None,
    }
}

/// After `map_pages` mapped `size` bytes from `va` onto `pa` (so each of
/// its pages is newly mapped), every address `v` in that range translates to
/// `pa` plus its distance from `va`.
pub proof fn lemma_map_pages_translate(old: PhysMem, new: PhysMem, root: u64, va: u64, pa: u64, size: u64, perm: u64, v: u64)
    requires
        map_args_error(va, pa, size) is None,
        forall|w: u64| in_pages(va, (size / 4096) as int, w) ==> #[trigger] newly_mapped(old, new, root, va, pa, perm, w),
        va <= v < va + size,
        v < 0x1_0000_0000_0000 || va >= 0xFFFF_0000_0000_0000,
        pa + size <= 0x1_0000_0000_0000,
        perm & ADDR_MASK == 0,
    ensures
        translation(new.contents(), root, v) == Some((pa + (v - va)) as u64),
{
    let d: u64 = (v - va) as u64;
    assert((v >> 12u64) & 0xf_ffff_ffffu64 == ((va >> 12u64) & 0xf_ffff_ffffu64) + d / 4096) by (bit_vector)
        requires
            va % 4096 == 0,
            va <= v,
            d == v - va,
            v < 0x1_0000_0000_0000u64 || va >= 0xFFFF_0000_0000_0000u64;
    assert(d / 4096 < size / 4096) by (nonlinear_arith)
        requires d < size, size % 4096 == 0;
    assert(in_pages(va, (size / 4096) as int, v));
    assert(newly_mapped(old, new, root, va, pa, perm, v));
    lemma_translate_after_map(old, new, root, va, pa, perm, v);
}

/// The first `m` pages from `va` were neither mapped nor blocked in `old`:
/// page `m` is the first one a map can stop at.
pub open spec fn map_clear_upto(old: PhysMem, root: u64, va: u64, m: int) -> bool {
    forall|j: int| 0 <= j < m ==> (#[trigger] pte_view(old.contents(), root, page_at(va, j))) is None
        && !blocked(old.contents(), root, page_at(va, j))
}

proof fn lemma_map_clear_upto(old: PhysMem, new: PhysMem, root: u64, va: u64, pa: u64, size: u64, perm: u64, m: int)
    requires
        map_effect(old, new, root, va, pa, (size / 4096) as int, perm, m),
        0 <= m <= size / 4096,
        va % 4096 == 0,
        size % 4096 == 0,
        va + size <= u64::MAX,
        range_canonical(va, size),
    ensures
        map_clear_upto(old, root, va, m),
{
    assert forall|j: int| 0 <= j < m implies (#[trigger] pte_view(old.contents(), root, page_at(va, j))) is None
        && !blocked(old.contents(), root, page_at(va, j)) by {
        lemma_vpn_offset(va, size, j as u64);
        assert(in_pages(va, m, page_at(va, j)));
        assert(newly_mapped(old, new, root, va, pa, perm, page_at(va, j)));
    }
}

/// Maps the `size / PAGE_SIZE` pages from `va` on to consecutive physical
/// pages from `pa` with attributes `perm`, in the tree at `page_table`.
pub fn map_pages(mem: &mut PhysMem, page_table: u64, va: u64, pa: u64, size: u64, perm: u64) -> (r: Result<(), MapError>)
    requires
        map_pages_pre(*old(mem), page_table, va, pa, size),
    ensures
        map_args_error(va, pa, size) is Some ==> r == Err::<(), MapError>(map_args_error(va, pa, size).unwrap()) && *final(mem) == *old(mem),
        map_args_error(va, pa, size) is None ==> {
            let n = size / 4096;
            &&& map_base(*old(mem), *final(mem), page_table, va, n as int)
            &&& final(mem).free().len() + 3 * n >= old(mem).free().len()
            &&& forall|v: u64| in_pages(va, n as int, v) ==> #[trigger] pte_view(final(mem).contents(), page_table, v) == pte_view(old(mem).contents(), page_table, v)
                    || newly_mapped(*old(mem), *final(mem), page_table, va, pa, perm, v)
            &&& r is Ok ==> forall|v: u64| in_pages(va, n as int, v) ==> #[trigger] newly_mapped(*old(mem), *final(mem), page_table, va, pa, perm, v)
            &&& r == Err::<(), MapError>(MapError::AlreadyMapped) ==> exists|v: u64| in_pages(va, n as int, v) && (#[trigger] pte_view(old(mem).contents(), page_table, v)) is Some
            &&& r == Err::<(), MapError>(MapError::WalkFailed) ==> exists|v: u64| in_pages(va, n as int, v) && #[trigger] blocked(old(mem).contents(), page_table, v)
            &&& r == Err::<(), MapError>(MapError::AllocationFailed) ==> final(mem).free().len() == 0
            &&& (r is Err ==> r == Err::<(), MapError>(MapError::AlreadyMapped) || r == Err::<(), MapError>(MapError::WalkFailed) || r == Err::<(), MapError>(MapError::AllocationFailed))
            &&& ((forall|v: u64| in_pages(va, n as int, v) ==> (#[trigger] pte_view(old(mem).contents(), page_table, v)) is None && !blocked(old(mem).contents(), page_table, v))
                    && old(mem).free().len() >= 3 * n) ==> r is Ok
            &&& r is Err ==> exists|m: int| 0 <= m < n && #[trigger] map_effect(*old(mem), *final(mem), page_table, va, pa, n as int, perm, m)
                && map_clear_upto(*old(mem), page_table, va, m)
                && (r == Err::<(), MapError>(MapError::AlreadyMapped) ==> pte_view(old(mem).contents(), page_table, page_at(va, m)) is Some)
                && (r == Err::<(), MapError>(MapError::WalkFailed) ==> blocked(old(mem).contents(), page_table, page_at(va, m)))
        },
{
    if size == 0 {
        return Err(MapError::ZeroSize);
    }
    if (va % PAGE_SIZE as u64) != 0 || (pa % PAGE_SIZE as u64) != 0 {
        return Err(MapError::UnalignedAddress);
    }
    if (size % PAGE_SIZE as u64) != 0 {
        return Err(MapError::UnalignedSize);
    }
    let ghost old_mem = *mem;
    let ghost n: int = (size / 4096) as int;
    let ghost pre_ok: bool = (forall|v: u64| in_pages(va, n, v) ==> (#[trigger] pte_view(old_mem.contents(), page_table, v)) is None && !blocked(old_mem.contents(), page_table, v))
        && old_mem.free().len() >= 3 * n;
    let mut a = va;
    let mut cur_pa = pa;
    let last = va + size - (PAGE_SIZE as u64);
    let ghost mut k: int = 0;
    proof {
        lemma_others_refl(mem.contents(), mem.tables(), page_table);
        assert(mem.free() =~= old_mem.free().subrange(0, mem.free().len() as int));
    }
    loop
        invariant
            old_mem == *old(mem),
            n == size / 4096,
            n >= 1,
            size % 4096 == 0,
            va % 4096 == 0,
            pa % 4096 == 0,
            va + size <= u64::MAX,
            pa + size <= u64::MAX,
            range_canonical(va, size),
            last == va + size - 4096,
            0 <= k < n,
            a == va + k * 4096,
            cur_pa == pa + k * 4096,
            map_effect(old_mem, *mem, page_table, va, pa, n, perm, k),
            old_mem.free().len() - mem.free().len() <= 3 * k,
            pre_ok == ((forall|v: u64| in_pages(va, n, v) ==> (#[trigger] pte_view(old_mem.contents(), page_table, v)) is None && !blocked(old_mem.contents(), page_table, v))
                && old_mem.free().len() >= 3 * n),
        decreases last - a,
    {
        proof {
            lemma_vpn_offset(va, size, k as u64);
        }
        let ghost before = *mem;
        let w = walk(mem, page_table, a);
        proof {
            lemma_map_then_walk(old_mem, before, *mem, page_table, va, pa, n, perm, k);
            assert(in_pages(va, n, a) && !in_pages(va, k, a));
            lemma_lidx_bound(3, a);
        }
        match w {
            Ok((t, i)) => {
                proof {
                    mem.lemma_wf();
                    assert(mem.tables().contains(t));
                }
                let e = mem.read_word(t, i);
                if (e & DESC_VALID) != 0 {
                    proof {
                        assert(pte_view(mem.contents(), page_table, a) == Some(e));
                        assert(pte_view(old_mem.contents(), page_table, a) is Some);
                        assert(page_at(va, k) == a);
                        assert(map_effect(old_mem, *mem, page_table, va, pa, n, perm, k));
                        lemma_map_clear_upto(old_mem, *mem, page_table, va, pa, size, perm, k);
                    }
                    return Err(MapError::AlreadyMapped);
                }
                let ghost mid = *mem;
                let entry = page_address_to_page_entry(cur_pa) | DESC_VALID | DESC_PAGE | perm;
                mem.write_word(t, i, entry);
                proof {
                    let m = mid.contents();
                    let m2 = mem.contents();
                    assert forall|x: u64| x != t implies #[trigger] m2[x] == m[x] by {}
                    lemma_leaf_write(m, m2, mid.tables(), page_table, a, t, entry);
                    lemma_leaf_others(m, m2, mid.tables(), page_table, a, t, entry);
                    lemma_others_trans(old_mem.contents(), old_mem.tables(), m, mid.tables(), m2, mem.tables(), page_table);
                    assert(table_step(mid, *mem)) by {
                        assert(mem.free() =~= mid.free().subrange(0, mem.free().len() as int));
                    }
                    lemma_table_step_trans(old_mem, mid, *mem);
                    assert(entry == leaf_entry(page_target(va, pa, a), perm));
                    assert(pte_view(mid.contents(), page_table, a) is None);
                    assert(is_valid(entry)) by {
                        lemma_valid_leaf(cur_pa, perm);
                    }
                    assert forall|v: u64| in_pages(va, k + 1, v) implies #[trigger] newly_mapped(old_mem, *mem, page_table, va, pa, perm, v) by {
                        if vpn(v) == vpn(a) {
                            assert(pfx(4, v) == pfx(4, a));
                            lemma_same_page(old_mem.contents(), page_table, v, a);
                            lemma_same_page(mid.contents(), page_table, v, a);
                        } else {
                            assert(in_pages(va, k, v));
                            assert(newly_mapped(old_mem, mid, page_table, va, pa, perm, v));
                        }
                    }
                }
                if a == last {
                    proof {
                        assert(k + 1 == n);
                    }
                    return Ok(());
                }
                a = a + PAGE_SIZE as u64;
                cur_pa = cur_pa + PAGE_SIZE as u64;
                proof {
                    k = k + 1;
                }
            },
            Err(err) => {
                proof {
                    if err == MapError::WalkFailed {
                        assert(blocked(old_mem.contents(), page_table, a));
                    }
                    assert(page_at(va, k) == a);
                    assert(map_effect(old_mem, *mem, page_table, va, pa, n, perm, k));
                    lemma_map_clear_upto(old_mem, *mem, page_table, va, pa, size, perm, k);
                }
                return Err(err);
            },
        }
    }
}

/// The physical address that `va` translates to in the tree at
/// `page_table`, installing missing intermediate tables on the way.
pub fn kvm_translate(mem: &mut PhysMem, page_table: u64, va: u64) -> (r: Result<u64, MapError>)
    requires
        old(mem).wf(),
        pt_wf(old(mem).contents(), old(mem).tables(), page_table),
        canonical(va),
    ensures
        walk_effect(*old(mem), *final(mem), page_table),
        r == match translation(old(mem).contents(), page_table, va) {
            Some(a) => Ok::<u64, MapError>(a),
            None => Err::<u64, MapError>(MapError::WalkFailed),
        },
        match pte_view(old(mem).contents(), page_table, va) {
            Some(e) => r == Ok::<u64, MapError>(((e & ADDR_MASK) + va % 4096) as u64) && same_mem(*old(mem), *final(mem)),
            None => r == Err::<u64, MapError>(MapError::WalkFailed),
        },
{
    let w = walk(mem, page_table, va);
    match w {
        Ok((t, i)) => {
            proof {
                mem.lemma_wf();
                lemma_lidx_bound(3, va);
                assert(mem.tables().contains(t));
            }
            let pte = mem.read_word(t, i);
            if (pte & 0x1) != 0 {
                let phys_addr = pte & 0x0000_FFFF_FFFF_F000;
                let page_offset = va & (PAGE_SIZE as u64 - 1);
                assert(va & 4095u64 == va % 4096 && pte & 0x0000_FFFF_FFFF_F000u64 <= 0x0000_FFFF_FFFF_F000u64) by (bit_vector);
                return Ok(phys_addr + page_offset);
            }
            proof {
                assert(pte_view(mem.contents(), page_table, va) is None);
            }
            Err(MapError::WalkFailed)
        },
        Err(_) => {
            proof {
                if table_loc(old(mem).contents(), page_table, va, 3) is Some {
                    assert(false);
                }
            }
            Err(MapError::WalkFailed)
        },
    }
}

/// The level-3 descriptor slot for `va` in the tree at `page_table`, if the
/// walk gets there without installing anything.
fn walk_existing(mem: &PhysMem, page_table: u64, va: u64) -> (r: Option<(u64, usize)>)
    requires
        mem.wf(),
        pt_wf(mem.contents(), mem.tables(), page_table),
    ensures
        r == if canonical(va) && table_loc(mem.contents(), page_table, va, 3) is Some {
            Some((table_loc(mem.contents(), page_table, va, 3).unwrap(), lidx(3, va) as usize))
        } else {
            None::<(u64, usize)>
        },
{
    if !is_canonical_addr(va) {
        return None;
    }
    let mut t = page_table;
    for level in 0..3
        invariant
            mem.wf(),
            pt_wf(mem.contents(), mem.tables(), page_table),
            table_loc(mem.contents(), page_table, va, level as int) == Some(t),
    {
        let idx = level_index(level, va);
        proof {
            mem.lemma_wf();
            assert(mem.tables().contains(t));
        }
        let pte = mem.read_word(t, idx);
        if (pte & DESC_VALID) == 0 || (pte & DESC_TABLE) == 0 {
            proof {
                lemma_loc_none_after(mem.contents(), page_table, va, level as int + 1, 3);
            }
            return None;
        }
        t = pte_to_page_address(pte);
    }
    Some((t, level_index(3, va)))
}

/// `new` differs from `old` in tables and in frames taken off the end of the
/// free list; every other frame is unchanged.
pub open spec fn mem_step(old: PhysMem, new: PhysMem) -> bool {
    &&& new.kernel_end() == old.kernel_end()
    &&& new.free().len() <= old.free().len()
    &&& new.free() == old.free().subrange(0, new.free().len() as int)
    &&& old.tables().subset_of(new.tables())
    &&& forall|f: u64| #[trigger] new.tables().contains(f) ==> old.tables().contains(f) || old.free().contains(f)
    &&& forall|f: u64| !new.tables().contains(f) && !old.free().contains(f)
            ==> (#[trigger] new.contents().contains_key(f)) == old.contents().contains_key(f)
    &&& forall|f: u64| !new.tables().contains(f) && !old.free().contains(f)
            ==> #[trigger] new.contents()[f] == old.contents()[f]
}

/// A step that only touches tables is a memory step.
pub proof fn lemma_table_step_is_mem_step(a: PhysMem, b: PhysMem)
    requires
        table_step(a, b),
    ensures
        mem_step(a, b),
{
}

/// Two memory steps make one.
pub proof fn lemma_mem_step_trans(a: PhysMem, b: PhysMem, c: PhysMem)
    requires
        mem_step(a, b),
        mem_step(b, c),
    ensures
        mem_step(a, c),
{
    assert(c.free() =~= a.free().subrange(0, c.free().len() as int));
    assert forall|f: u64| #[trigger] c.tables().contains(f) implies a.tables().contains(f) || a.free().contains(f) by {
        if !b.tables().contains(f) {
            let k = choose|k: int| 0 <= k < b.free().len() && b.free()[k] == f;
            assert(a.free()[k] == f);
        }
    }
    assert forall|f: u64| !c.tables().contains(f) && !a.free().contains(f) implies !b.free().contains(f) by {
        if b.free().contains(f) {
            let k = choose|k: int| 0 <= k < b.free().len() && b.free()[k] == f;
            assert(a.free()[k] == f);
        }
    }
}

/// A zero-filled page.
pub open spec fn zero_page() -> Seq<u64> {
    Seq::new(512, |i: int| 0u64)
}

/// The page of `v` maps, with attributes `perm`, a frame holding `c` that
/// was free in `old` and is no table.
pub open spec fn backed_by_fresh(old: PhysMem, new: PhysMem, root: u64, perm: u64, v: u64, c: Seq<u64>) -> bool {
    pte_view(new.contents(), root, v) matches Some(e) && exists|f: u64| {
        &&& e == #[trigger] leaf_entry(f, perm)
        &&& old.free().contains(f)
        &&& !new.tables().contains(f)
        &&& new.contents().contains_key(f)
        &&& new.contents()[f] == c
    }
}

/// The page of `v` was unmapped and reachable, and now maps, with
/// attributes `perm`, a frame holding `c` that was free and is no table.
pub open spec fn fresh_page_with(old: PhysMem, new: PhysMem, root: u64, perm: u64, v: u64, c: Seq<u64>) -> bool {
    &&& pte_view(old.contents(), root, v) is None
    &&& !blocked(old.contents(), root, v)
    &&& backed_by_fresh(old, new, root, perm, v, c)
}

/// The page of `v` now maps a fresh zero-filled frame.
pub open spec fn fresh_page(old: PhysMem, new: PhysMem, root: u64, perm: u64, v: u64) -> bool {
    fresh_page_with(old, new, root, perm, v, zero_page())
}

/// What every `u_vm_alloc` call that grows the memory keeps: only the `n`
/// pages from `va` on change in the tree at `root`, each to a fresh page.
pub open spec fn alloc_base(old: PhysMem, new: PhysMem, root: u64, va: u64, n: int, perm: u64) -> bool {
    &&& new.wf()
    &&& pt_wf(new.contents(), new.tables(), root)
    &&& mem_step(old, new)
    &&& others_kept(old.contents(), old.tables(), new.contents(), new.tables(), root)
    &&& forall|v: u64| #[trigger] blocked(new.contents(), root, v) == blocked(old.contents(), root, v)
    &&& forall|v: u64| !in_pages(va, n, v) ==> #[trigger] pte_view(new.contents(), root, v) == pte_view(old.contents(), root, v)
    &&& forall|v: u64| in_pages(va, n, v) ==> #[trigger] pte_view(new.contents(), root, v) == pte_view(old.contents(), root, v)
            || fresh_page(old, new, root, perm, v)
}

/// The `n` pages from `va` on map pairwise different descriptors.
pub open spec fn distinct_pages(m: Map<u64, Seq<u64>>, root: u64, va: u64, n: int) -> bool {
    forall|v1: u64, v2: u64| in_pages(va, n, v1) && in_pages(va, n, v2) && vpn(v1) != vpn(v2)
        ==> #[trigger] pte_view(m, root, v1) != #[trigger] pte_view(m, root, v2)
}

/// Number of pages `u_vm_alloc(.., old_size, new_size, ..)` maps: those
/// from `old_size` rounded up to a page boundary that start below `new_size`.
pub open spec fn grow_pages(old_size: u64, new_size: u64) -> int {
    let r = round_up_spec(old_size as int);
    if new_size > r { (new_size - r + 4095) / 4096 } else { 0 }
}

/// What `u_vm_alloc` needs of its arguments.
pub open spec fn grow_ok(old_size: u64, new_size: u64) -> bool {
    new_size >= old_size ==> (new_size <= 0x1_0000_0000_0000
        || (old_size >= 0xFFFF_0000_0000_0000 && new_size <= u64::MAX - 4096))
}

/// `x` rounded up to a page boundary.
fn page_round_up(x: u64) -> (r: u64)
    requires
        x + 4096 <= u64::MAX,
    ensures
        r == round_up_spec(x as int),
        r % 4096 == 0,
{
    let t: u64 = x + 4095;
    assert(t & !4095u64 == t - t % 4096) by (bit_vector);
    t & !4095u64
}

/// A page-aligned address is its own round-up.
pub proof fn lemma_round_aligned(x: u64)
    requires
        x % 4096 == 0,
    ensures
        round_up_spec(x as int) == x,
{
    let y = x as int;
    assert(((y + 4095) / 4096) * 4096 == y) by (nonlinear_arith)
        requires y % 4096 == 0, y >= 0;
}

proof fn lemma_grow_pages(old_size: u64, new_size: u64, k: int)
    requires
        new_size >= old_size,
        grow_ok(old_size, new_size),
        k >= 0,
    ensures
        round_up_spec(old_size as int) % 4096 == 0,
        old_size <= round_up_spec(old_size as int) < old_size + 4096,
        grow_pages(old_size, new_size) >= 0,
        round_up_spec(old_size as int) + k * 4096 < new_size <==> k < grow_pages(old_size, new_size),
        round_up_spec(old_size as int) + grow_pages(old_size, new_size) * 4096 <= u64::MAX,
        range_canonical(round_up_spec(old_size as int) as u64, (grow_pages(old_size, new_size) * 4096) as u64),
{
    let r = round_up_spec(old_size as int);
    let x = old_size as int;
    assert(r % 4096 == 0 && x <= r < x + 4096) by (nonlinear_arith)
        requires r == ((x + 4095) / 4096) * 4096, x >= 0;
    let n = grow_pages(old_size, new_size);
    if new_size > r {
        let d = new_size - r;
        assert(n * 4096 >= d && n * 4096 < d + 4096 && n >= 1) by (nonlinear_arith)
            requires n == (d + 4095) / 4096, d > 0;
        assert((r + k * 4096 < new_size) <==> k < n) by (nonlinear_arith)
            requires n * 4096 >= d, n * 4096 < d + 4096, d == new_size - r, k >= 0;
        assert((r + n * 4096) % 4096 == 0) by (nonlinear_arith)
            requires r % 4096 == 0;
    } else {
        assert(n == 0);
        assert(r + k * 4096 >= r) by (nonlinear_arith) requires k >= 0;
    }
}

/// Of the `n` pages from `va`, the first `m` now map fresh zero-filled
/// frames and the rest are as they were.
pub open spec fn alloc_prefix(old: PhysMem, new: PhysMem, root: u64, perm: u64, va: u64, n: int, m: int) -> bool {
    &&& forall|v: u64| in_pages(va, m, v) ==> #[trigger] fresh_page(old, new, root, perm, v)
    &&& forall|v: u64| in_pages(va, n, v) && !in_pages(va, m, v) ==> #[trigger] pte_view(new.contents(), root, v) == pte_view(old.contents(), root, v)
}

/// Grows a user address space from `old_size` to `new_size` bytes: maps a
/// zero-filled frame at each page from `old_size` rounded up, below
/// `new_size`. Returns the table's address on success and `old_size` when
/// there is nothing to grow.
pub fn u_vm_alloc(mem: &mut PhysMem, page_table: u64, old_size: u64, new_size: u64, perm: u64) -> (r: Result<u64, MapError>)
    requires
        old(mem).wf(),
        pt_wf(old(mem).contents(), old(mem).tables(), page_table),
        grow_ok(old_size, new_size),
    ensures
        new_size < old_size ==> r == Ok::<u64, MapError>(old_size) && same_mem(*old(mem), *final(mem)),
        new_size >= old_size ==> {
            let va = round_up_spec(old_size as int) as u64;
            let n = grow_pages(old_size, new_size);
            &&& alloc_base(*old(mem), *final(mem), page_table, va, n, perm)
            &&& r is Ok ==> r == Ok::<u64, MapError>(page_table)
                && forall|v: u64| in_pages(va, n, v) ==> #[trigger] fresh_page(*old(mem), *final(mem), page_table, perm, v)
            &&& r is Ok && perm & ADDR_MASK == 0 ==> distinct_pages(final(mem).contents(), page_table, va, n)
            &&& r == Err::<u64, MapError>(MapError::AlreadyMapped) ==> exists|v: u64| in_pages(va, n, v) && (#[trigger] pte_view(old(mem).contents(), page_table, v)) is Some
            &&& r == Err::<u64, MapError>(MapError::WalkFailed) ==> exists|v: u64| in_pages(va, n, v) && #[trigger] blocked(old(mem).contents(), page_table, v)
            &&& r == Err::<u64, MapError>(MapError::AllocationFailed) ==> final(mem).free().len() == 0
            &&& (r is Err ==> r == Err::<u64, MapError>(MapError::AlreadyMapped) || r == Err::<u64, MapError>(MapError::WalkFailed) || r == Err::<u64, MapError>(MapError::AllocationFailed))
            &&& ((forall|v: u64| in_pages(va, n, v) ==> (#[trigger] pte_view(old(mem).contents(), page_table, v)) is None && !blocked(old(mem).contents(), page_table, v))
                    && old(mem).free().len() >= 4 * n) ==> r is Ok
            &&& r is Err ==> exists|m: int| 0 <= m < n && #[trigger] alloc_prefix(*old(mem), *final(mem), page_table, perm, va, n, m)
        },
{
    if new_size < old_size {
        return Ok(old_size);
    }
    let start = page_round_up(old_size);
    let ghost old_mem = *mem;
    let ghost r0 = start;
    let ghost n = grow_pages(old_size, new_size);
    let ghost pre_ok: bool = (forall|v: u64| in_pages(r0, n, v) ==> (#[trigger] pte_view(old_mem.contents(), page_table, v)) is None && !blocked(old_mem.contents(), page_table, v))
        && old_mem.free().len() >= 4 * n;
    let mut a = start;
    let ghost mut k: int = 0;
    proof {
        lemma_others_refl(mem.contents(), mem.tables(), page_table);
        assert(mem.free() =~= old_mem.free().subrange(0, mem.free().len() as int));
        lemma_grow_pages(old_size, new_size, 0);
    }
    while a < new_size
        invariant
            old_mem == *old(mem),
            r0 % 4096 == 0,
            r0 == round_up_spec(old_size as int),
            n == grow_pages(old_size, new_size),
            r0 + n * 4096 <= u64::MAX,
            range_canonical(r0, (n * 4096) as u64),
            0 <= k <= n,
            new_size >= old_size,
            grow_ok(old_size, new_size),
            a == r0 + k * 4096,
            (a < new_size) == (k < n),
            alloc_base(old_mem, *mem, page_table, r0, n, perm),
            forall|v: u64| in_pages(r0, k, v) ==> #[trigger] fresh_page(old_mem, *mem, page_table, perm, v),
            forall|v: u64| in_pages(r0, n, v) && !in_pages(r0, k, v) ==> #[trigger] pte_view(mem.contents(), page_table, v) == pte_view(old_mem.contents(), page_table, v),
            old_mem.free().len() - mem.free().len() <= 4 * k,
            perm & ADDR_MASK == 0 ==> distinct_pages(mem.contents(), page_table, r0, k),
            pre_ok == ((forall|v: u64| in_pages(r0, n, v) ==> (#[trigger] pte_view(old_mem.contents(), page_table, v)) is None && !blocked(old_mem.contents(), page_table, v))
                && old_mem.free().len() >= 4 * n),
        decreases n - k,
    {
        proof {
            lemma_vpn_offset(r0, (n * 4096) as u64, k as u64);
            lemma_grow_pages(old_size, new_size, k + 1);
        }
        let ghost s0 = *mem;
        let alloc = k_alloc(mem);
        let frame = match alloc {
            None => {
                proof {
                    assert forall|v: u64| in_pages(r0, k, v) implies #[trigger] fresh_page(old_mem, *mem, page_table, perm, v) by {
                        assert(fresh_page(old_mem, s0, page_table, perm, v));
                    }
                    assert(alloc_prefix(old_mem, *mem, page_table, perm, r0, n, k));
                }
                return Err(MapError::AllocationFailed);
            },
            Some(run) => run.addr,
        };
        proof {
            s0.lemma_wf();
            assert(s0.free()[s0.free().len() - 1] == frame);
            assert(!s0.tables().contains(frame));
            lemma_data_others(s0.contents(), mem.contents(), s0.tables(), mem.tables(), frame, page_table);
        }
        let ghost s1 = *mem;
        mem.zero_frame(frame);
        proof {
            lemma_data_others(s1.contents(), mem.contents(), s1.tables(), mem.tables(), frame, page_table);
            lemma_others_trans(s0.contents(), s0.tables(), s1.contents(), s1.tables(), mem.contents(), mem.tables(), page_table);
            assert(mem_step(s0, *mem)) by {
                assert(mem.free() =~= s0.free().subrange(0, mem.free().len() as int));
                assert(s0.free().contains(frame));
            }
            assert(is_frame_addr(frame));
        }
        let ghost s2 = *mem;
        let m = map_pages(mem, page_table, a, frame, PAGE_SIZE as u64, perm);
        proof {
            lemma_table_step_is_mem_step(s2, *mem);
            lemma_mem_step_trans(s0, s2, *mem);
            lemma_others_trans(s0.contents(), s0.tables(), s2.contents(), s2.tables(), mem.contents(), mem.tables(), page_table);
            lemma_mem_step_trans(old_mem, s0, *mem);
            lemma_others_trans(old_mem.contents(), old_mem.tables(), s0.contents(), s0.tables(), mem.contents(), mem.tables(), page_table);
            assert forall|v: u64| in_pages(a, 1, v) <==> (in_pages(r0, k + 1, v) && !in_pages(r0, k, v)) by {}
            assert(in_pages(r0, n, a) && !in_pages(r0, k, a));
        }
        match m {
            Err(e) => {
                proof {
                    if e == MapError::AlreadyMapped {
                        let v = choose|v: u64| in_pages(a, 1, v) && (#[trigger] pte_view(s2.contents(), page_table, v)) is Some;
                        assert(in_pages(r0, n, v));
                    }
                    if e == MapError::WalkFailed {
                        let v = choose|v: u64| in_pages(a, 1, v) && #[trigger] blocked(s2.contents(), page_table, v);
                        assert(in_pages(r0, n, v));
                    }
                    let m0 = choose|m0: int| 0 <= m0 < 1 && #[trigger] map_effect(s2, *mem, page_table, a, frame, 1, perm, m0);
                    assert(m0 == 0);
                    assert forall|v: u64| in_pages(r0, k, v) implies #[trigger] fresh_page(old_mem, *mem, page_table, perm, v) by {
                        assert(fresh_page(old_mem, s0, page_table, perm, v));
                        assert(pte_view(mem.contents(), page_table, v) == pte_view(s0.contents(), page_table, v));
                    }
                    assert forall|v: u64| in_pages(r0, n, v) && !in_pages(r0, k, v)
                        implies #[trigger] pte_view(mem.contents(), page_table, v) == pte_view(old_mem.contents(), page_table, v) by {
                        if in_pages(a, 1, v) {
                            assert(pte_view(mem.contents(), page_table, v) == pte_view(s2.contents(), page_table, v));
                        }
                    }
                    assert(alloc_prefix(old_mem, *mem, page_table, perm, r0, n, k));
                }
                return Err(e);
            },
            Ok(()) => {},
        }
        proof {
            assert forall|v: u64| in_pages(r0, k + 1, v) implies #[trigger] fresh_page(old_mem, *mem, page_table, perm, v) by {
                if in_pages(r0, k, v) {
                    assert(fresh_page(old_mem, s0, page_table, perm, v));
                    assert(pte_view(mem.contents(), page_table, v) == pte_view(s0.contents(), page_table, v));
                } else {
                    assert(in_pages(a, 1, v));
                    assert(newly_mapped(s2, *mem, page_table, a, frame, perm, v));
                    assert(page_target(a, frame, v) == frame);
                    assert(old_mem.free().contains(frame)) by {
                        assert(s0.free()[s0.free().len() - 1] == frame);
                        assert(old_mem.free()[s0.free().len() - 1] == frame);
                    }
                    assert(mem.contents()[frame] == zero_page());
                    assert(pte_view(mem.contents(), page_table, v) == Some(leaf_entry(frame, perm)));
                }
            }
            if perm & ADDR_MASK == 0 {
                assert forall|v1: u64, v2: u64| in_pages(r0, k + 1, v1) && in_pages(r0, k + 1, v2) && vpn(v1) != vpn(v2)
                    implies #[trigger] pte_view(mem.contents(), page_table, v1) != #[trigger] pte_view(mem.contents(), page_table, v2) by {
                    if in_pages(r0, k, v1) && in_pages(r0, k, v2) {
                        assert(pte_view(mem.contents(), page_table, v1) == pte_view(s0.contents(), page_table, v1));
                        assert(pte_view(mem.contents(), page_table, v2) == pte_view(s0.contents(), page_table, v2));
                    } else {
                        let (vo, vn) = if in_pages(r0, k, v1) { (v1, v2) } else { (v2, v1) };
                        assert(in_pages(r0, k, vo) && in_pages(a, 1, vn));
                        assert(fresh_page(old_mem, s0, page_table, perm, vo));
                        let fo = choose|f: u64| {
                            &&& pte_view(s0.contents(), page_table, vo).unwrap() == #[trigger] leaf_entry(f, perm)
                            &&& old_mem.free().contains(f)
                            &&& !s0.tables().contains(f)
                            &&& s0.contents().contains_key(f)
                            &&& s0.contents()[f] == zero_page()
                        };
                        s0.lemma_wf();
                        s0.lemma_wf_spec();
                        assert(s0.free().contains(frame));
                        assert(fo != frame);
                        assert(pte_view(mem.contents(), page_table, vo) == pte_view(s0.contents(), page_table, vo));
                        assert(newly_mapped(s2, *mem, page_table, a, frame, perm, vn));
                        assert(page_target(a, frame, vn) == frame);
                        lemma_leaf_addr(fo, perm);
                        lemma_leaf_addr(frame, perm);
                    }
                }
            }
        }
        a = a + PAGE_SIZE as u64;
        proof {
            k = k + 1;
        }
    }
    Ok(page_table)
}

/// A leaf of a parent's tree that `fork` copies: a valid page descriptor
/// that EL0 may access, outside the trampoline and trap-frame pages.
pub open spec fn clonable(e: u64, va: u64) -> bool {
    &&& is_valid(e)
    &&& e & DESC_TABLE == DESC_PAGE
    &&& (e & USER_AP_MASK == AP_EL1_RW_EL0_RW || e & USER_AP_MASK == AP_EL1_RX_EL0_RX)
    &&& va != TRAMPOLINE
    &&& va != TRAP_FRAME
}

/// The attributes a copied leaf keeps.
pub open spec fn clone_perm(e: u64) -> u64 {
    e & LEAF_ATTR_MASK & !(DESC_VALID | DESC_PAGE)
}

/// The frame a cloned page of the parent reads from.
pub open spec fn parent_frame(m: Map<u64, Seq<u64>>, parent: u64, va: u64) -> u64 {
    pte_view(m, parent, va).unwrap() & ADDR_MASK
}

/// The page at `a` is a copy in the child of the parent's page, or, when
/// the parent's page is not one `fork` copies, untouched in the child.
pub open spec fn cloned_page(old: PhysMem, new: PhysMem, parent: u64, child: u64, a: u64) -> bool {
    if pte_view(old.contents(), parent, a) is Some && clonable(pte_view(old.contents(), parent, a).unwrap(), a) {
        let e = pte_view(old.contents(), parent, a).unwrap();
        &&& pte_view(old.contents(), child, a) is None
        &&& !blocked(old.contents(), child, a)
        &&& pte_view(new.contents(), child, a) matches Some(ce) && exists|f: u64| {
                &&& ce == #[trigger] leaf_entry(f, clone_perm(e))
                &&& old.free().contains(f)
                &&& !new.tables().contains(f)
                &&& new.contents().contains_key(f)
                &&& new.contents()[f] == old.contents()[e & ADDR_MASK]
            }
    } else {
        pte_view(new.contents(), child, a) == pte_view(old.contents(), child, a)
    }
}

/// What `clone_user_pages_in_range` needs: two apart, well-formed trees in a
/// lower-half page-aligned range, and every page it copies holds data.
pub open spec fn clone_pre(mem: PhysMem, parent: u64, child: u64, start: u64, end: u64) -> bool {
    &&& mem.wf()
    &&& pt_wf(mem.contents(), mem.tables(), parent)
    &&& pt_wf(mem.contents(), mem.tables(), child)
    &&& pt_disjoint(mem.contents(), child, parent)
    &&& start % 4096 == 0
    &&& end <= 0x1_0000_0000_0000
    &&& forall|k: int| 0 <= k < grow_pages(start, end) ==> #[trigger] clone_source_ok(mem, parent, page_at(start, k))
}

/// Page `k` of a range starting at `start`.
pub open spec fn page_at(start: u64, k: int) -> u64 {
    (start + k * 4096) as u64
}

/// If `fork` copies the parent's page at `a`, its frame holds data and is no
/// table.
pub open spec fn clone_source_ok(mem: PhysMem, parent: u64, a: u64) -> bool {
    pte_view(mem.contents(), parent, a) is Some && clonable(pte_view(mem.contents(), parent, a).unwrap(), a) ==> {
        &&& mem.contents().contains_key(parent_frame(mem.contents(), parent, a))
        &&& !mem.tables().contains(parent_frame(mem.contents(), parent, a))
    }
}

/// The parent's tree maps the page of `a` for EL0 use, so a clone copies it.
pub open spec fn parent_clones(mem: PhysMem, parent: u64, a: u64) -> bool {
    pte_view(mem.contents(), parent, a) is Some && clonable(pte_view(mem.contents(), parent, a).unwrap(), a)
}

/// Every page of the `n` from `start` that the parent lends is neither
/// mapped nor blocked in the child's tree.
pub open spec fn clone_room(mem: PhysMem, parent: u64, child: u64, start: u64, n: int) -> bool {
    forall|k: int| 0 <= k < n && #[trigger] parent_clones(mem, parent, page_at(start, k)) ==> {
        &&& pte_view(mem.contents(), child, page_at(start, k)) is None
        &&& !blocked(mem.contents(), child, page_at(start, k))
    }
}

/// Page `k` of those `fork` copies: the 32 pages of the program image, then
/// the stack page.
pub open spec fn fork_page(k: int) -> u64 {
    if k < 32 { page_at(USER_IMAGE_START, k) } else { USER_STACK_START }
}

/// The frame of the user page of `a` in the tree at `root`: the page the
/// tree maps there for EL0 use at a canonical address, other than the
/// trampoline and trap frame.
pub open spec fn user_frame(mem: PhysMem, root: u64, a: u64) -> Option<u64> {
    if canonical(a) && parent_clones(mem, root, a) { Some(pte_view(mem.contents(), root, a).unwrap() & ADDR_MASK) } else { None }
}

/// The frame of the user page of `va` in the tree at `root`, if it has one.
pub fn user_page_frame(mem: &PhysMem, root: u64, va: u64) -> (r: Option<u64>)
    requires
        mem.wf(),
        pt_wf(mem.contents(), mem.tables(), root),
    ensures
        r == user_frame(*mem, root, va),
{
    let found = walk_existing(mem, root, va);
    let mut frame: Option<u64> = None;
    match found {
        Some((t, i)) => {
            proof {
                mem.lemma_wf();
                lemma_lidx_bound(3, va);
                assert(mem.tables().contains(t));
            }
            let pte = mem.read_word(t, i);
            proof {
                assert(leaf(mem.contents(), root, va) == Some(pte));
            }
            if (pte & DESC_VALID) != 0 && (pte & DESC_TABLE) == DESC_PAGE {
                let access = pte & USER_AP_MASK;
                if (access == AP_EL1_RW_EL0_RW || access == AP_EL1_RX_EL0_RX) && va != TRAMPOLINE && va != TRAP_FRAME {
                    frame = Some(pte_to_page_address(pte));
                }
            }
        },
        None => {},
    }
    frame
}

/// The effect of a clone on the pages outside the range and on other trees.
pub open spec fn clone_base(old: PhysMem, new: PhysMem, parent: u64, child: u64, start: u64, n: int) -> bool {
    &&& new.wf()
    &&& pt_wf(new.contents(), new.tables(), child)
    &&& mem_step(old, new)
    &&& others_kept(old.contents(), old.tables(), new.contents(), new.tables(), child)
    &&& forall|v: u64| #[trigger] blocked(new.contents(), child, v) == blocked(old.contents(), child, v)
    &&& forall|v: u64| !in_pages(start, n, v) ==> #[trigger] pte_view(new.contents(), child, v) == pte_view(old.contents(), child, v)
}

/// The first `m` of the `n` pages from `start` are copied as `fork` copies
/// them, and the child's leaves for the rest are as they were.
pub open spec fn clone_prefix(old: PhysMem, new: PhysMem, parent: u64, child: u64, start: u64, n: int, m: int) -> bool {
    &&& forall|j: int| 0 <= j < m ==> #[trigger] cloned_page(old, new, parent, child, page_at(start, j))
    &&& forall|v: u64| in_pages(start, n, v) && !in_pages(start, m, v)
            ==> #[trigger] pte_view(new.contents(), child, v) == pte_view(old.contents(), child, v)
}

/// Copies into the child's tree each page of `[start, end)` that the
/// parent's tree maps for EL0 (except the trampoline and trap frame), each
/// to a fresh frame holding a copy of the parent's page. On an error the
/// pages before the one that failed stay copied and the rest are untouched.
fn clone_user_pages_in_range(mem: &mut PhysMem, parent_page_table: u64, child_page_table: u64, start: u64, end: u64) -> (r: Result<(), MapError>)
    requires
        clone_pre(*old(mem), parent_page_table, child_page_table, start, end),
    ensures
        clone_base(*old(mem), *final(mem), parent_page_table, child_page_table, start, grow_pages(start, end)),
        r is Ok ==> forall|k: int| 0 <= k < grow_pages(start, end)
            ==> #[trigger] cloned_page(*old(mem), *final(mem), parent_page_table, child_page_table, page_at(start, k)),
        r == Err::<(), MapError>(MapError::AllocationFailed) ==> final(mem).free().len() == 0,
        r is Err ==> r == Err::<(), MapError>(MapError::AlreadyMapped) || r == Err::<(), MapError>(MapError::WalkFailed) || r == Err::<(), MapError>(MapError::AllocationFailed),
        r == Err::<(), MapError>(MapError::AlreadyMapped) ==> exists|k: int| 0 <= k < grow_pages(start, end)
            && #[trigger] parent_clones(*old(mem), parent_page_table, page_at(start, k))
            && pte_view(old(mem).contents(), child_page_table, page_at(start, k)) is Some,
        r == Err::<(), MapError>(MapError::WalkFailed) ==> exists|k: int| 0 <= k < grow_pages(start, end)
            && #[trigger] parent_clones(*old(mem), parent_page_table, page_at(start, k))
            && blocked(old(mem).contents(), child_page_table, page_at(start, k)),
        clone_room(*old(mem), parent_page_table, child_page_table, start, grow_pages(start, end))
            && old(mem).free().len() >= 4 * grow_pages(start, end) ==> r is Ok,
        r is Ok ==> final(mem).free().len() + 4 * grow_pages(start, end) >= old(mem).free().len(),
        r is Err ==> exists|m: int| 0 <= m < grow_pages(start, end)
            && #[trigger] clone_prefix(*old(mem), *final(mem), parent_page_table, child_page_table, start, grow_pages(start, end), m),
{
    let ghost old_mem = *mem;
    let ghost n = grow_pages(start, end);
    let ghost room = clone_room(old_mem, parent_page_table, child_page_table, start, n)
        && old_mem.free().len() >= 4 * n;
    let mut va = start;
    let ghost mut k: int = 0;
    proof {
        lemma_others_refl(mem.contents(), mem.tables(), child_page_table);
        assert(mem.free() =~= old_mem.free().subrange(0, mem.free().len() as int));
        lemma_round_aligned(start);
        if end >= start {
            lemma_grow_pages(start, end, 0);
        }
    }
    while va < end
        invariant
            old_mem == *old(mem),
            clone_pre(old_mem, parent_page_table, child_page_table, start, end),
            n == grow_pages(start, end),
            round_up_spec(start as int) == start,
            0 <= k <= n,
            va == start + k * 4096,
            (va < end) == (k < n),
            end >= start ==> range_canonical(start, (n * 4096) as u64) && start + n * 4096 <= u64::MAX,
            clone_base(old_mem, *mem, parent_page_table, child_page_table, start, n),
            forall|j: int| 0 <= j < k ==> #[trigger] cloned_page(old_mem, *mem, parent_page_table, child_page_table, page_at(start, j)),
            forall|v: u64| in_pages(start, n, v) && !in_pages(start, k, v) ==> #[trigger] pte_view(mem.contents(), child_page_table, v) == pte_view(old_mem.contents(), child_page_table, v),
            room == (clone_room(old_mem, parent_page_table, child_page_table, start, n) && old_mem.free().len() >= 4 * n),
            mem.free().len() + 4 * k >= old_mem.free().len(),
        decreases n - k,
    {
        proof {
            assert(end >= start);
            lemma_grow_pages(start, end, k + 1);
            lemma_vpn_offset(start, (n * 4096) as u64, k as u64);
            assert(clone_source_ok(old_mem, parent_page_table, page_at(start, k)));
            // The parent's tree is apart from the child's, so it is kept.
            assert(pt_disjoint(old_mem.contents(), child_page_table, parent_page_table));
            assert(tree_kept(old_mem.contents(), mem.contents(), mem.tables(), child_page_table, parent_page_table));
        }
        let ghost cur = *mem;
        let found = walk_existing(mem, parent_page_table, va);
        let mut copy = false;
        let mut parent_pte: u64 = 0;
        match found {
            Some((t, i)) => {
                proof {
                    mem.lemma_wf();
                    lemma_lidx_bound(3, va);
                    assert(mem.tables().contains(t));
                }
                parent_pte = mem.read_word(t, i);
                if (parent_pte & DESC_VALID) != 0 && (parent_pte & DESC_TABLE) == DESC_PAGE {
                    let access = parent_pte & USER_AP_MASK;
                    if (access == AP_EL1_RW_EL0_RW || access == AP_EL1_RX_EL0_RX) && va != TRAMPOLINE && va != TRAP_FRAME {
                        copy = true;
                    }
                }
            },
            None => {},
        }
        proof {
            let e = pte_view(old_mem.contents(), parent_page_table, va);
            assert(pte_view(mem.contents(), parent_page_table, va) == e);
            if copy {
                assert(e == Some(parent_pte));
            }
            assert(copy == (e is Some && clonable(e.unwrap(), va)));
        }
        if copy {
            let perm = parent_pte & LEAF_ATTR_MASK & !(DESC_VALID | DESC_PAGE);
            let parent_pa = pte_to_page_address(parent_pte);
            let ghost s0 = *mem;
            let child_mem = k_alloc(mem);
            let child_pa = match child_mem {
                None => {
                    proof {
                        assert(room ==> s0.free().len() > 0);
                        assert forall|j: int| 0 <= j < k implies #[trigger] cloned_page(old_mem, *mem, parent_page_table, child_page_table, page_at(start, j)) by {
                            assert(cloned_page(old_mem, cur, parent_page_table, child_page_table, page_at(start, j)));
                        }
                        assert(clone_prefix(old_mem, *mem, parent_page_table, child_page_table, start, n, k));
                    }
                    return Err(MapError::AllocationFailed);
                },
                Some(run) => run.addr,
            };
            proof {
                s0.lemma_wf();
                assert(s0.free()[s0.free().len() - 1] == child_pa);
                assert(!s0.tables().contains(child_pa));
                lemma_data_others(s0.contents(), mem.contents(), s0.tables(), mem.tables(), child_pa, child_page_table);
                // The parent's page is present, not free, not a table: kept so far.
                assert(old_mem.contents().contains_key(parent_pa));
                assert(!old_mem.tables().contains(parent_pa));
                old_mem.lemma_wf();
                assert(!old_mem.free().contains(parent_pa));
                assert(!mem.tables().contains(parent_pa)) by {
                    if mem.tables().contains(parent_pa) {
                        assert(old_mem.tables().contains(parent_pa) || old_mem.free().contains(parent_pa));
                    }
                }
                assert(mem.contents().contains_key(parent_pa));
                assert(mem.contents()[parent_pa] == old_mem.contents()[parent_pa]);
            }
            let ghost s1 = *mem;
            mem.copy_frame(parent_pa, child_pa);
            proof {
                lemma_data_others(s1.contents(), mem.contents(), s1.tables(), mem.tables(), child_pa, child_page_table);
                lemma_others_trans(s0.contents(), s0.tables(), s1.contents(), s1.tables(), mem.contents(), mem.tables(), child_page_table);
                assert(mem_step(s0, *mem)) by {
                    assert(mem.free() =~= s0.free().subrange(0, mem.free().len() as int));
                    assert(s0.free().contains(child_pa));
                }
                assert(is_frame_addr(child_pa));
            }
            let ghost s2 = *mem;
            let m = map_pages(mem, child_page_table, va, child_pa, PAGE_SIZE as u64, perm);
            proof {
                lemma_table_step_is_mem_step(s2, *mem);
                lemma_mem_step_trans(s0, s2, *mem);
                lemma_others_trans(s0.contents(), s0.tables(), s2.contents(), s2.tables(), mem.contents(), mem.tables(), child_page_table);
                lemma_mem_step_trans(old_mem, cur, *mem);
                lemma_others_trans(old_mem.contents(), old_mem.tables(), cur.contents(), cur.tables(), mem.contents(), mem.tables(), child_page_table);
                assert forall|v: u64| in_pages(va, 1, v) <==> (in_pages(start, k + 1, v) && !in_pages(start, k, v)) by {}
                assert(in_pages(start, n, va) && !in_pages(start, k, va));
            }
            proof {
                assert(pte_view(s2.contents(), child_page_table, va) == pte_view(old_mem.contents(), child_page_table, va));
                assert(blocked(s2.contents(), child_page_table, va) == blocked(old_mem.contents(), child_page_table, va));
                assert(parent_clones(old_mem, parent_page_table, page_at(start, k)));
                assert forall|v: u64| in_pages(va, 1, v) implies
                    #[trigger] pte_view(s2.contents(), child_page_table, v) == pte_view(s2.contents(), child_page_table, va) by {
                    lemma_same_page(s2.contents(), child_page_table, v, va);
                }
                if room {
                    assert(pte_view(old_mem.contents(), child_page_table, page_at(start, k)) is None);
                    assert(!blocked(old_mem.contents(), child_page_table, page_at(start, k)));
                    assert(s2.free().len() >= 3);
                    assert forall|v: u64| in_pages(va, 1, v) implies (#[trigger] pte_view(s2.contents(), child_page_table, v)) is None
                        && !blocked(s2.contents(), child_page_table, v) by {
                        lemma_same_page(s2.contents(), child_page_table, v, va);
                    }
                }
            }
            match m {
                Err(e) => {
                    proof {
                        if e == MapError::AlreadyMapped {
                            let v = choose|v: u64| in_pages(va, 1, v) && (#[trigger] pte_view(s2.contents(), child_page_table, v)) is Some;
                            assert(pte_view(s2.contents(), child_page_table, v) == pte_view(s2.contents(), child_page_table, va));
                        }
                        if e == MapError::WalkFailed {
                            let v = choose|v: u64| in_pages(va, 1, v) && #[trigger] blocked(s2.contents(), child_page_table, v);
                            lemma_same_page(s2.contents(), child_page_table, v, va);
                        }
                        let m0 = choose|m0: int| 0 <= m0 < 1 && #[trigger] map_effect(s2, *mem, child_page_table, va, child_pa, 1, perm, m0);
                        assert(m0 == 0);
                        assert forall|j: int| 0 <= j < k implies #[trigger] cloned_page(old_mem, *mem, parent_page_table, child_page_table, page_at(start, j)) by {
                            let b = page_at(start, j);
                            lemma_vpn_offset(start, (n * 4096) as u64, j as u64);
                            assert(cloned_page(old_mem, cur, parent_page_table, child_page_table, b));
                            assert(in_pages(start, k, b));
                            assert(!in_pages(va, 1, b));
                            assert(pte_view(mem.contents(), child_page_table, b) == pte_view(cur.contents(), child_page_table, b));
                        }
                        assert forall|v: u64| in_pages(start, n, v) && !in_pages(start, k, v)
                            implies #[trigger] pte_view(mem.contents(), child_page_table, v) == pte_view(old_mem.contents(), child_page_table, v) by {
                            if in_pages(va, 1, v) {
                                assert(pte_view(mem.contents(), child_page_table, v) == pte_view(s2.contents(), child_page_table, v));
                            }
                        }
                        assert(clone_prefix(old_mem, *mem, parent_page_table, child_page_table, start, n, k));
                    }
                    return Err(e);
                },
                Ok(()) => {},
            }
            proof {
                assert(in_pages(va, 1, va));
                assert(newly_mapped(s2, *mem, child_page_table, va, child_pa, perm, va));
                assert(page_target(va, child_pa, va) == child_pa);
                assert(old_mem.free().contains(child_pa)) by {
                    assert(old_mem.free()[s0.free().len() - 1] == child_pa);
                }
                assert(mem.contents()[child_pa] == old_mem.contents()[parent_pa]);
                assert(pte_view(mem.contents(), child_page_table, va) == Some(leaf_entry(child_pa, perm)));
                let e = pte_view(old_mem.contents(), parent_page_table, va).unwrap();
                assert(e == parent_pte);
                assert(perm == clone_perm(e));
                assert(pte_view(s2.contents(), child_page_table, va) == pte_view(old_mem.contents(), child_page_table, va));
                assert(blocked(s2.contents(), child_page_table, va) == blocked(old_mem.contents(), child_page_table, va));
                assert(leaf_entry(child_pa, clone_perm(e)) == leaf_entry(child_pa, perm));
                assert(cloned_page(old_mem, *mem, parent_page_table, child_page_table, va));
                assert forall|j: int| 0 <= j < k implies #[trigger] cloned_page(old_mem, *mem, parent_page_table, child_page_table, page_at(start, j)) by {
                    let b = page_at(start, j);
                    lemma_vpn_offset(start, (n * 4096) as u64, j as u64);
                    assert(cloned_page(old_mem, cur, parent_page_table, child_page_table, b));
                    assert(in_pages(start, k, b));
                    assert(!in_pages(va, 1, b));
                    assert(pte_view(mem.contents(), child_page_table, b) == pte_view(cur.contents(), child_page_table, b));
                }
            }
        } else {
            proof {
                assert(cloned_page(old_mem, *mem, parent_page_table, child_page_table, va)) by {
                    assert(in_pages(start, n, va) && !in_pages(start, k, va));
                }
            }
        }
        va = va + PAGE_SIZE as u64;
        proof {
            k = k + 1;
        }
    }
    Ok(())
}

/// Lowest address of the user program image that `fork` copies.
pub const USER_IMAGE_START: u64 = 0x0010_0000;
/// End of the user program image that `fork` copies.
pub const USER_IMAGE_END: u64 = 0x0012_0000;
/// The user stack page.
pub const USER_STACK_START: u64 = 0x8000_0000;
/// End of the user stack page.
pub const USER_STACK_END: u64 = 0x8000_1000;

proof fn lemma_cloned_kept(a: PhysMem, b: PhysMem, c: PhysMem, parent: u64, child: u64, v: u64)
    requires
        b.wf(),
        cloned_page(a, b, parent, child, v),
        mem_step(b, c),
        mem_step(a, b),
        pte_view(c.contents(), child, v) == pte_view(b.contents(), child, v),
    ensures
        cloned_page(a, c, parent, child, v),
{
    if pte_view(a.contents(), parent, v) is Some && clonable(pte_view(a.contents(), parent, v).unwrap(), v) {
        let e = pte_view(a.contents(), parent, v).unwrap();
        let ce = pte_view(b.contents(), child, v).unwrap();
        let f = choose|f: u64| {
            &&& ce == #[trigger] leaf_entry(f, clone_perm(e))
            &&& a.free().contains(f)
            &&& !b.tables().contains(f)
            &&& b.contents().contains_key(f)
            &&& b.contents()[f] == a.contents()[e & ADDR_MASK]
        };
        b.lemma_wf_spec();
        assert(!b.free().contains(f));
        assert(!c.tables().contains(f));
    }
}

/// Of the pages `fork` copies, in the order it copies them, the first `m`
/// are copied and the child's leaves for the rest are as they were.
pub open spec fn fork_prefix(old: PhysMem, new: PhysMem, parent: u64, child: u64, m: int) -> bool {
    &&& forall|k: int| 0 <= k < m ==> #[trigger] cloned_page(old, new, parent, child, fork_page(k))
    &&& forall|k: int| m <= k < 33 ==> #[trigger] pte_view(new.contents(), child, fork_page(k)) == pte_view(old.contents(), child, fork_page(k))
}

/// Copies the user image and user stack of the parent's address space into
/// the child's, page by page. On an error the pages before the one that
/// failed stay copied and the rest are untouched.
pub fn clone_user_space(mem: &mut PhysMem, parent_page_table: u64, child_page_table: u64) -> (r: Result<(), MapError>)
    requires
        clone_pre(*old(mem), parent_page_table, child_page_table, USER_IMAGE_START, USER_IMAGE_END),
        clone_pre(*old(mem), parent_page_table, child_page_table, USER_STACK_START, USER_STACK_END),
    ensures
        final(mem).wf(),
        pt_wf(final(mem).contents(), final(mem).tables(), child_page_table),
        mem_step(*old(mem), *final(mem)),
        others_kept(old(mem).contents(), old(mem).tables(), final(mem).contents(), final(mem).tables(), child_page_table),
        forall|v: u64| !in_pages(USER_IMAGE_START, 32, v) && !in_pages(USER_STACK_START, 1, v)
            ==> #[trigger] pte_view(final(mem).contents(), child_page_table, v) == pte_view(old(mem).contents(), child_page_table, v),
        r is Ok ==> {
            &&& forall|k: int| 0 <= k < 32 ==> #[trigger] cloned_page(*old(mem), *final(mem), parent_page_table, child_page_table, page_at(USER_IMAGE_START, k))
            &&& cloned_page(*old(mem), *final(mem), parent_page_table, child_page_table, USER_STACK_START)
        },
        r == Err::<(), MapError>(MapError::AllocationFailed) ==> final(mem).free().len() == 0,
        r is Err ==> r == Err::<(), MapError>(MapError::AlreadyMapped) || r == Err::<(), MapError>(MapError::WalkFailed) || r == Err::<(), MapError>(MapError::AllocationFailed),
        r == Err::<(), MapError>(MapError::AlreadyMapped) ==> exists|k: int| 0 <= k < 33
            && #[trigger] parent_clones(*old(mem), parent_page_table, fork_page(k))
            && pte_view(old(mem).contents(), child_page_table, fork_page(k)) is Some,
        r == Err::<(), MapError>(MapError::WalkFailed) ==> exists|k: int| 0 <= k < 33
            && #[trigger] parent_clones(*old(mem), parent_page_table, fork_page(k))
            && blocked(old(mem).contents(), child_page_table, fork_page(k)),
        clone_room(*old(mem), parent_page_table, child_page_table, USER_IMAGE_START, 32)
            && clone_room(*old(mem), parent_page_table, child_page_table, USER_STACK_START, 1)
            && old(mem).free().len() >= 4 * 33 ==> r is Ok,
        r is Err ==> exists|m: int| 0 <= m < 33 && #[trigger] fork_prefix(*old(mem), *final(mem), parent_page_table, child_page_table, m),
{
    let ghost m0 = *mem;
    proof {
        assert(grow_pages(USER_IMAGE_START, USER_IMAGE_END) == 32) by {
            lemma_round_aligned(USER_IMAGE_START);
        }
        assert(grow_pages(USER_STACK_START, USER_STACK_END) == 1) by {
            lemma_round_aligned(USER_STACK_START);
        }
    }
    let r1 = clone_user_pages_in_range(mem, parent_page_table, child_page_table, USER_IMAGE_START, USER_IMAGE_END);
    if r1.is_err() {
        proof {
            assert forall|v: u64| !in_pages(USER_IMAGE_START, 32, v) && !in_pages(USER_STACK_START, 1, v)
                implies #[trigger] pte_view(mem.contents(), child_page_table, v) == pte_view(m0.contents(), child_page_table, v) by {}
            if r1 == Err::<(), MapError>(MapError::AlreadyMapped) {
                let k = choose|k: int| 0 <= k < 32 && #[trigger] parent_clones(m0, parent_page_table, page_at(USER_IMAGE_START, k))
                    && pte_view(m0.contents(), child_page_table, page_at(USER_IMAGE_START, k)) is Some;
                assert(fork_page(k) == page_at(USER_IMAGE_START, k));
            }
            if r1 == Err::<(), MapError>(MapError::WalkFailed) {
                let k = choose|k: int| 0 <= k < 32 && #[trigger] parent_clones(m0, parent_page_table, page_at(USER_IMAGE_START, k))
                    && blocked(m0.contents(), child_page_table, page_at(USER_IMAGE_START, k));
                assert(fork_page(k) == page_at(USER_IMAGE_START, k));
            }
            let m = choose|m: int| 0 <= m < 32
                && #[trigger] clone_prefix(m0, *mem, parent_page_table, child_page_table, USER_IMAGE_START, 32, m);
            lemma_vpn_div(USER_IMAGE_START);
            lemma_vpn_div(USER_STACK_START);
            assert forall|k: int| 0 <= k < m implies #[trigger] cloned_page(m0, *mem, parent_page_table, child_page_table, fork_page(k)) by {
                assert(fork_page(k) == page_at(USER_IMAGE_START, k));
            }
            assert forall|k: int| m <= k < 33 implies #[trigger] pte_view(mem.contents(), child_page_table, fork_page(k))
                == pte_view(m0.contents(), child_page_table, fork_page(k)) by {
                lemma_vpn_div(fork_page(k));
                if k < 32 {
                    assert(in_pages(USER_IMAGE_START, 32, fork_page(k)) && !in_pages(USER_IMAGE_START, m, fork_page(k)));
                }
            }
            assert(fork_prefix(m0, *mem, parent_page_table, child_page_table, m));
        }
        return r1;
    }
    let ghost m1 = *mem;
    proof {
        // The second range's premises survive the first copy.
        assert(pt_disjoint(m0.contents(), child_page_table, parent_page_table));
        assert(tree_kept(m0.contents(), m1.contents(), m1.tables(), child_page_table, parent_page_table));
        m0.lemma_wf_spec();
        assert forall|k: int| 0 <= k < grow_pages(USER_STACK_START, USER_STACK_END)
            implies #[trigger] clone_source_ok(m1, parent_page_table, page_at(USER_STACK_START, k)) by {
            assert(clone_source_ok(m0, parent_page_table, page_at(USER_STACK_START, k)));
            let a = page_at(USER_STACK_START, k);
            if pte_view(m0.contents(), parent_page_table, a) is Some && clonable(pte_view(m0.contents(), parent_page_table, a).unwrap(), a) {
                let f = parent_frame(m0.contents(), parent_page_table, a);
                assert(!m0.free().contains(f));
                assert(!m1.tables().contains(f));
            }
        }
        assert(pt_disjoint(m1.contents(), child_page_table, parent_page_table));
    }
    proof {
        let a = USER_STACK_START;
        assert(page_at(USER_STACK_START, 0) == a);
        assert(fork_page(32) == a);
        assert(pte_view(m1.contents(), parent_page_table, a) == pte_view(m0.contents(), parent_page_table, a));
        assert(pte_view(m1.contents(), child_page_table, a) == pte_view(m0.contents(), child_page_table, a)) by {
            lemma_vpn_div(a);
            lemma_vpn_div(USER_IMAGE_START);
        }
        assert(blocked(m1.contents(), child_page_table, a) == blocked(m0.contents(), child_page_table, a));
        assert(parent_clones(m1, parent_page_table, a) == parent_clones(m0, parent_page_table, a));
        if clone_room(m0, parent_page_table, child_page_table, USER_STACK_START, 1) {
            assert forall|k: int| 0 <= k < 1 && #[trigger] parent_clones(m1, parent_page_table, page_at(USER_STACK_START, k)) implies {
                &&& pte_view(m1.contents(), child_page_table, page_at(USER_STACK_START, k)) is None
                &&& !blocked(m1.contents(), child_page_table, page_at(USER_STACK_START, k))
            } by {
                assert(k == 0);
                assert(parent_clones(m0, parent_page_table, page_at(USER_STACK_START, 0)));
            }
        }
    }
    let r2 = clone_user_pages_in_range(mem, parent_page_table, child_page_table, USER_STACK_START, USER_STACK_END);
    proof {
        if r2 == Err::<(), MapError>(MapError::AlreadyMapped) {
            let k = choose|k: int| 0 <= k < 1 && #[trigger] parent_clones(m1, parent_page_table, page_at(USER_STACK_START, k))
                && pte_view(m1.contents(), child_page_table, page_at(USER_STACK_START, k)) is Some;
            assert(k == 0);
            assert(parent_clones(m0, parent_page_table, fork_page(32)));
        }
        if r2 == Err::<(), MapError>(MapError::WalkFailed) {
            let k = choose|k: int| 0 <= k < 1 && #[trigger] parent_clones(m1, parent_page_table, page_at(USER_STACK_START, k))
                && blocked(m1.contents(), child_page_table, page_at(USER_STACK_START, k));
            assert(k == 0);
            assert(parent_clones(m0, parent_page_table, fork_page(32)));
        }
        lemma_mem_step_trans(m0, m1, *mem);
        lemma_others_trans(m0.contents(), m0.tables(), m1.contents(), m1.tables(), mem.contents(), mem.tables(), child_page_table);
        if r2.is_err() {
            let m = choose|m: int| 0 <= m < 1
                && #[trigger] clone_prefix(m1, *mem, parent_page_table, child_page_table, USER_STACK_START, 1, m);
            assert(m == 0);
            lemma_vpn_div(USER_IMAGE_START);
            lemma_vpn_div(USER_STACK_START);
            assert forall|k: int| 0 <= k < 32 implies #[trigger] cloned_page(m0, *mem, parent_page_table, child_page_table, fork_page(k)) by {
                let a = page_at(USER_IMAGE_START, k);
                assert(fork_page(k) == a);
                lemma_vpn_div(a);
                assert(!in_pages(USER_STACK_START, 1, a));
                lemma_cloned_kept(m0, m1, *mem, parent_page_table, child_page_table, a);
            }
            assert forall|k: int| 32 <= k < 33 implies #[trigger] pte_view(mem.contents(), child_page_table, fork_page(k))
                == pte_view(m0.contents(), child_page_table, fork_page(k)) by {
                assert(fork_page(k) == USER_STACK_START);
                assert(in_pages(USER_STACK_START, 1, USER_STACK_START));
                assert(pte_view(m1.contents(), child_page_table, USER_STACK_START) == pte_view(m0.contents(), child_page_table, USER_STACK_START)) by {
                    assert(!in_pages(USER_IMAGE_START, 32, USER_STACK_START));
                }
            }
            assert(fork_prefix(m0, *mem, parent_page_table, child_page_table, 32));
        }
        if r2.is_ok() {
            assert forall|k: int| 0 <= k < 32 implies #[trigger] cloned_page(m0, *mem, parent_page_table, child_page_table, page_at(USER_IMAGE_START, k)) by {
                let a = page_at(USER_IMAGE_START, k);
                lemma_vpn_div(a);
                lemma_vpn_div(USER_STACK_START);
                assert(!in_pages(USER_STACK_START, 1, a));
                lemma_cloned_kept(m0, m1, *mem, parent_page_table, child_page_table, a);
            }
            assert(page_at(USER_STACK_START, 0) == USER_STACK_START);
            assert(cloned_page(m1, *mem, parent_page_table, child_page_table, USER_STACK_START));
            assert(cloned_page(m0, *mem, parent_page_table, child_page_table, USER_STACK_START)) by {
                let a = USER_STACK_START;
                assert(pte_view(m1.contents(), parent_page_table, a) == pte_view(m0.contents(), parent_page_table, a));
                assert(pte_view(m1.contents(), child_page_table, a) == pte_view(m0.contents(), child_page_table, a)) by {
                    lemma_vpn_div(a);
                    lemma_vpn_div(USER_IMAGE_START);
                }
                assert(blocked(m1.contents(), child_page_table, a) == blocked(m0.contents(), child_page_table, a));
                if pte_view(m0.contents(), parent_page_table, a) is Some && clonable(pte_view(m0.contents(), parent_page_table, a).unwrap(), a) {
                    let e = pte_view(m0.contents(), parent_page_table, a).unwrap();
                    let ce = pte_view(mem.contents(), child_page_table, a).unwrap();
                    let f = choose|f: u64| {
                        &&& ce == #[trigger] leaf_entry(f, clone_perm(e))
                        &&& m1.free().contains(f)
                        &&& !mem.tables().contains(f)
                        &&& mem.contents().contains_key(f)
                        &&& mem.contents()[f] == m1.contents()[e & ADDR_MASK]
                    };
                    assert(m0.free().contains(f)) by {
                        let j = choose|j: int| 0 <= j < m1.free().len() && m1.free()[j] == f;
                        assert(m0.free()[j] == f);
                    }
                    let pf = e & ADDR_MASK;
                    assert(clone_source_ok(m0, parent_page_table, page_at(USER_STACK_START, 0)));
                    assert(!m0.free().contains(pf));
                    assert(!m1.tables().contains(pf));
                    assert(m1.contents()[pf] == m0.contents()[pf]);
                }
            }
        }
        assert forall|v: u64| !in_pages(USER_IMAGE_START, 32, v) && !in_pages(USER_STACK_START, 1, v)
            implies #[trigger] pte_view(mem.contents(), child_page_table, v) == pte_view(m0.contents(), child_page_table, v) by {}
    }
    r2
}

/// Number of process slots; each has a kernel stack.
pub const NUMBER_OF_PROCESS: usize = 10;

/// Attributes of a kernel stack page: normal memory, EL1 read/write,
/// never executable.
pub const KSTACK_PERM: u64 = 0x60_0000_0000_0400;

/// Page `p` of process `i`'s kernel stack.
pub open spec fn stack_page(i: int, p: int) -> u64 {
    (4096 * (0x7_FFFF_FFFF - 3 * (i + 1) + p)) as u64
}

/// The page of `v` is one of the kernel stack pages.
pub open spec fn in_kstacks(v: u64) -> bool {
    exists|i: int, p: int| 0 <= i < NUMBER_OF_PROCESS && 0 <= p < KSTACK_PAGES && vpn(v) == #[trigger] vpn(stack_page(i, p))
}

/// A page filled with the allocator's junk word.
pub open spec fn junk_page() -> Seq<u64> {
    Seq::new(512, |i: int| ALLOC_JUNK)
}

proof fn lemma_stack_vpn(i: int, p: int)
    requires
        0 <= i < NUMBER_OF_PROCESS,
        0 <= p < KSTACK_PAGES,
    ensures
        vpn(stack_page(i, p)) == 0x7_FFFF_FFFF - 3 * (i + 1) + p,
        stack_page(i, p) == TRAMPOLINE - (i + 1) * 12288 + p * 4096,
        stack_page(i, p) % 4096 == 0,
{
    let x = 0x7_FFFF_FFFF - 3 * (i + 1) + p;
    assert((4096 * x) / 4096 == x && (4096 * x) % 4096 == 0) by (nonlinear_arith);
    lemma_vpn_div(stack_page(i, p));
}

/// The kernel-stack pages numbered below `done` (page `p` of process `i`
/// has number `2 * i + p`) have pairwise different leaves.
pub open spec fn stacks_apart(m: Map<u64, Seq<u64>>, root: u64, done: int) -> bool {
    forall|i1: int, p1: int, i2: int, p2: int|
        0 <= i1 < NUMBER_OF_PROCESS && 0 <= p1 < KSTACK_PAGES && 0 <= i2 < NUMBER_OF_PROCESS && 0 <= p2 < KSTACK_PAGES
        && 2 * i1 + p1 < done && 2 * i2 + p2 < done && (i1 != i2 || p1 != p2)
        ==> #[trigger] pte_view(m, root, stack_page(i1, p1)) != #[trigger] pte_view(m, root, stack_page(i2, p2))
}

/// Backs every process's kernel stack with fresh frames in the tree at
/// `page_table`.
fn proc_map_stacks(mem: &mut PhysMem, page_table: u64) -> (r: Result<(), MapError>)
    requires
        old(mem).wf(),
        pt_wf(old(mem).contents(), old(mem).tables(), page_table),
    ensures
        final(mem).wf(),
        pt_wf(final(mem).contents(), final(mem).tables(), page_table),
        mem_step(*old(mem), *final(mem)),
        others_kept(old(mem).contents(), old(mem).tables(), final(mem).contents(), final(mem).tables(), page_table),
        forall|v: u64| #[trigger] blocked(final(mem).contents(), page_table, v) == blocked(old(mem).contents(), page_table, v),
        forall|v: u64| !in_kstacks(v) ==> #[trigger] pte_view(final(mem).contents(), page_table, v) == pte_view(old(mem).contents(), page_table, v),
        forall|v: u64| in_kstacks(v) ==> #[trigger] pte_view(final(mem).contents(), page_table, v) == pte_view(old(mem).contents(), page_table, v)
            || fresh_page_with(*old(mem), *final(mem), page_table, KSTACK_PERM, v, junk_page()),
        r is Ok ==> forall|i: int, p: int| 0 <= i < NUMBER_OF_PROCESS && 0 <= p < KSTACK_PAGES
            ==> #[trigger] fresh_page_with(*old(mem), *final(mem), page_table, KSTACK_PERM, stack_page(i, p), junk_page()),
        r is Ok ==> stacks_apart(final(mem).contents(), page_table, 2 * NUMBER_OF_PROCESS),
        r == Err::<(), MapError>(MapError::AlreadyMapped) ==> exists|v: u64| in_kstacks(v) && (#[trigger] pte_view(old(mem).contents(), page_table, v)) is Some,
        r == Err::<(), MapError>(MapError::WalkFailed) ==> exists|v: u64| in_kstacks(v) && #[trigger] blocked(old(mem).contents(), page_table, v),
        r == Err::<(), MapError>(MapError::AllocationFailed) ==> final(mem).free().len() == 0,
        r is Err ==> r == Err::<(), MapError>(MapError::AlreadyMapped) || r == Err::<(), MapError>(MapError::WalkFailed) || r == Err::<(), MapError>(MapError::AllocationFailed),
{
    let ghost old_mem = *mem;
    proof {
        lemma_others_refl(mem.contents(), mem.tables(), page_table);
        assert(mem.free() =~= old_mem.free().subrange(0, mem.free().len() as int));
    }
    for i in 0..NUMBER_OF_PROCESS
        invariant
            old_mem == *old(mem),
            mem.wf(),
            pt_wf(mem.contents(), mem.tables(), page_table),
            mem_step(old_mem, *mem),
            others_kept(old_mem.contents(), old_mem.tables(), mem.contents(), mem.tables(), page_table),
            forall|v: u64| #[trigger] blocked(mem.contents(), page_table, v) == blocked(old_mem.contents(), page_table, v),
            forall|v: u64| !in_kstacks(v) ==> #[trigger] pte_view(mem.contents(), page_table, v) == pte_view(old_mem.contents(), page_table, v),
            forall|i2: int, p2: int| 0 <= i2 < i && 0 <= p2 < KSTACK_PAGES
                ==> #[trigger] fresh_page_with(old_mem, *mem, page_table, KSTACK_PERM, stack_page(i2, p2), junk_page()),
            forall|i2: int, p2: int| i <= i2 < NUMBER_OF_PROCESS && 0 <= p2 < KSTACK_PAGES
                ==> #[trigger] pte_view(mem.contents(), page_table, stack_page(i2, p2)) == pte_view(old_mem.contents(), page_table, stack_page(i2, p2)),
            stacks_apart(mem.contents(), page_table, 2 * i),
    {
        let va = k_stack(i);
        for page in 0..KSTACK_PAGES
            invariant
                old_mem == *old(mem),
                0 <= i < NUMBER_OF_PROCESS,
                va == TRAMPOLINE - (i + 1) * 12288,
                mem.wf(),
                pt_wf(mem.contents(), mem.tables(), page_table),
                mem_step(old_mem, *mem),
                others_kept(old_mem.contents(), old_mem.tables(), mem.contents(), mem.tables(), page_table),
                forall|v: u64| #[trigger] blocked(mem.contents(), page_table, v) == blocked(old_mem.contents(), page_table, v),
                forall|v: u64| !in_kstacks(v) ==> #[trigger] pte_view(mem.contents(), page_table, v) == pte_view(old_mem.contents(), page_table, v),
                forall|i2: int, p2: int| 0 <= i2 < NUMBER_OF_PROCESS && 0 <= p2 < KSTACK_PAGES && (i2 < i || (i2 == i && p2 < page))
                    ==> #[trigger] fresh_page_with(old_mem, *mem, page_table, KSTACK_PERM, stack_page(i2, p2), junk_page()),
                forall|i2: int, p2: int| 0 <= i2 < NUMBER_OF_PROCESS && 0 <= p2 < KSTACK_PAGES && !(i2 < i || (i2 == i && p2 < page))
                    ==> #[trigger] pte_view(mem.contents(), page_table, stack_page(i2, p2)) == pte_view(old_mem.contents(), page_table, stack_page(i2, p2)),
                stacks_apart(mem.contents(), page_table, 2 * i + page),
        {
            let ghost s0 = *mem;
            let alloc = k_alloc(mem);
            let pa = match alloc {
                None => {
                    proof {
                        assert forall|i2: int, p2: int| 0 <= i2 < NUMBER_OF_PROCESS && 0 <= p2 < KSTACK_PAGES
                            implies #[trigger] pte_view(mem.contents(), page_table, stack_page(i2, p2)) == pte_view(old_mem.contents(), page_table, stack_page(i2, p2))
                            || fresh_page_with(old_mem, *mem, page_table, KSTACK_PERM, stack_page(i2, p2), junk_page()) by {
                            if i2 < i || (i2 == i && p2 < page) {
                                assert(fresh_page_with(old_mem, s0, page_table, KSTACK_PERM, stack_page(i2, p2), junk_page()));
                            } else {
                                assert(pte_view(s0.contents(), page_table, stack_page(i2, p2)) == pte_view(old_mem.contents(), page_table, stack_page(i2, p2)));
                            }
                        }
                        lemma_stack_outside_kept(old_mem, *mem, page_table);
                    }
                    return Err(MapError::AllocationFailed);
                },
                Some(run) => run.addr,
            };
            let a = va + page * PAGE_SIZE as u64;
            proof {
                lemma_stack_vpn(i as int, page as int);
                assert(a == stack_page(i as int, page as int));
                s0.lemma_wf();
                assert(s0.free()[s0.free().len() - 1] == pa);
                assert(!s0.tables().contains(pa));
                lemma_data_others(s0.contents(), mem.contents(), s0.tables(), mem.tables(), pa, page_table);
                assert(mem_step(s0, *mem)) by {
                    assert(mem.free() =~= s0.free().subrange(0, mem.free().len() as int));
                    assert(s0.free().contains(pa));
                }
                assert(is_frame_addr(pa));
                lemma_vpn_div(a);
            }
            let ghost s1 = *mem;
            let m = map_pages(mem, page_table, a, pa, PAGE_SIZE as u64, KSTACK_PERM);
            proof {
                lemma_table_step_is_mem_step(s1, *mem);
                lemma_mem_step_trans(s0, s1, *mem);
                lemma_others_trans(s0.contents(), s0.tables(), s1.contents(), s1.tables(), mem.contents(), mem.tables(), page_table);
                lemma_mem_step_trans(old_mem, s0, *mem);
                lemma_others_trans(old_mem.contents(), old_mem.tables(), s0.contents(), s0.tables(), mem.contents(), mem.tables(), page_table);
                assert(in_kstacks(a)) by {
                    assert(vpn(a) == vpn(stack_page(i as int, page as int)));
                }
                assert forall|v: u64| !in_kstacks(v) implies #[trigger] pte_view(mem.contents(), page_table, v) == pte_view(old_mem.contents(), page_table, v) by {
                    if in_pages(a, 1, v) {
                        assert(vpn(v) == vpn(stack_page(i as int, page as int)));
                    }
                }
                assert forall|i2: int, p2: int| 0 <= i2 < NUMBER_OF_PROCESS && 0 <= p2 < KSTACK_PAGES && !(i2 < i || (i2 == i && p2 <= page))
                    implies #[trigger] pte_view(mem.contents(), page_table, stack_page(i2, p2)) == pte_view(old_mem.contents(), page_table, stack_page(i2, p2)) by {
                    lemma_stack_vpn(i2, p2);
                    assert(!in_pages(a, 1, stack_page(i2, p2)));
                }
            }
            proof {
                assert forall|i2: int, p2: int| 0 <= i2 < NUMBER_OF_PROCESS && 0 <= p2 < KSTACK_PAGES && (i2 < i || (i2 == i && p2 < page))
                    implies #[trigger] fresh_page_with(old_mem, *mem, page_table, KSTACK_PERM, stack_page(i2, p2), junk_page()) by {
                    lemma_stack_vpn(i2, p2);
                    let b = stack_page(i2, p2);
                    assert(!in_pages(a, 1, b));
                    assert(fresh_page_with(old_mem, s0, page_table, KSTACK_PERM, b, junk_page()));
                    let e = pte_view(s0.contents(), page_table, b).unwrap();
                    let f = choose|f: u64| {
                        &&& e == #[trigger] leaf_entry(f, KSTACK_PERM)
                        &&& old_mem.free().contains(f)
                        &&& !s0.tables().contains(f)
                        &&& s0.contents().contains_key(f)
                        &&& s0.contents()[f] == junk_page()
                    };
                    s0.lemma_wf_spec();
                    assert(!s0.free().contains(f));
                    assert(!mem.tables().contains(f));
                }
                assert(in_pages(a, 1, a));
                assert(page_target(a, pa, a) == pa);
                assert(old_mem.free().contains(pa)) by {
                    assert(old_mem.free()[s0.free().len() - 1] == pa);
                }
                assert(pte_view(s1.contents(), page_table, a) == pte_view(old_mem.contents(), page_table, a));
                assert(pte_view(mem.contents(), page_table, a) == pte_view(old_mem.contents(), page_table, a)
                    || fresh_page_with(old_mem, *mem, page_table, KSTACK_PERM, a, junk_page())) by {
                    if pte_view(mem.contents(), page_table, a) != pte_view(old_mem.contents(), page_table, a) {
                        assert(newly_mapped(s1, *mem, page_table, a, pa, KSTACK_PERM, a));
                    }
                }
                assert forall|i2: int, p2: int| 0 <= i2 < NUMBER_OF_PROCESS && 0 <= p2 < KSTACK_PAGES
                    implies #[trigger] pte_view(mem.contents(), page_table, stack_page(i2, p2)) == pte_view(old_mem.contents(), page_table, stack_page(i2, p2))
                    || fresh_page_with(old_mem, *mem, page_table, KSTACK_PERM, stack_page(i2, p2), junk_page()) by {
                    if i2 == i && p2 == page {
                    } else if i2 < i || (i2 == i && p2 < page) {
                    } else {
                    }
                }
            }
            match m {
                Err(e) => {
                    proof {
                        lemma_stack_outside_kept(old_mem, *mem, page_table);
                        if e == MapError::AlreadyMapped {
                            let v = choose|v: u64| in_pages(a, 1, v) && (#[trigger] pte_view(s1.contents(), page_table, v)) is Some;
                            lemma_same_page(s1.contents(), page_table, v, a);
                            lemma_same_page(old_mem.contents(), page_table, v, a);
                            assert(pfx(4, v) == pfx(4, a));
                            assert(pte_view(old_mem.contents(), page_table, a) is Some);
                        }
                        if e == MapError::WalkFailed {
                            let v = choose|v: u64| in_pages(a, 1, v) && #[trigger] blocked(s1.contents(), page_table, v);
                            assert(blocked(old_mem.contents(), page_table, v));
                            lemma_same_page(old_mem.contents(), page_table, v, a);
                            assert(pfx(4, v) == pfx(4, a));
                            assert(in_kstacks(v)) by {
                                assert(vpn(v) == vpn(stack_page(i as int, page as int)));
                            }
                        }
                    }
                    return Err(e);
                },
                Ok(()) => {},
            }
            proof {
                assert(fresh_page_with(old_mem, *mem, page_table, KSTACK_PERM, a, junk_page())) by {
                    assert(newly_mapped(s1, *mem, page_table, a, pa, KSTACK_PERM, a));
                }
                assert(s0.free().contains(pa)) by {
                    assert(s0.free()[s0.free().len() - 1] == pa);
                }
                assert(pte_view(mem.contents(), page_table, stack_page(i as int, page as int)) == Some(leaf_entry(pa, KSTACK_PERM))) by {
                    assert(newly_mapped(s1, *mem, page_table, a, pa, KSTACK_PERM, a));
                    assert(page_target(a, pa, a) == pa);
                }
                assert forall|i2: int, p2: int| 0 <= i2 < NUMBER_OF_PROCESS && 0 <= p2 < KSTACK_PAGES && 2 * i2 + p2 < 2 * i + page
                    implies #[trigger] pte_view(mem.contents(), page_table, stack_page(i2, p2)) == pte_view(s0.contents(), page_table, stack_page(i2, p2)) by {
                    lemma_stack_vpn(i2, p2);
                    assert(!in_pages(a, 1, stack_page(i2, p2)));
                }
                assert forall|i2: int, p2: int| 0 <= i2 < NUMBER_OF_PROCESS && 0 <= p2 < KSTACK_PAGES && 2 * i2 + p2 < 2 * i + page
                    implies ((#[trigger] pte_view(s0.contents(), page_table, stack_page(i2, p2))) matches Some(e)
                        && exists|f: u64| e == #[trigger] leaf_entry(f, KSTACK_PERM) && s0.contents().contains_key(f)) by {
                    assert(fresh_page_with(old_mem, s0, page_table, KSTACK_PERM, stack_page(i2, p2), junk_page()));
                }
                lemma_stacks_apart_step(s0, *mem, page_table, i as int, page as int, pa);
            }
        }
    }
    proof {
        lemma_stack_outside_kept(old_mem, *mem, page_table);
    }
    Ok(())
}

/// Mapping page `page` of process `i`'s stack onto a frame that was free
/// keeps the stack pages before it apart from one another and from it.
proof fn lemma_stacks_apart_step(s0: PhysMem, mem: PhysMem, page_table: u64, i: int, page: int, pa: u64)
    requires
        s0.wf(),
        0 <= i < NUMBER_OF_PROCESS,
        0 <= page < KSTACK_PAGES,
        stacks_apart(s0.contents(), page_table, 2 * i + page),
        s0.free().contains(pa),
        pte_view(mem.contents(), page_table, stack_page(i, page)) == Some(leaf_entry(pa, KSTACK_PERM)),
        forall|i2: int, p2: int| 0 <= i2 < NUMBER_OF_PROCESS && 0 <= p2 < KSTACK_PAGES && 2 * i2 + p2 < 2 * i + page
            ==> #[trigger] pte_view(mem.contents(), page_table, stack_page(i2, p2)) == pte_view(s0.contents(), page_table, stack_page(i2, p2)),
        forall|i2: int, p2: int| 0 <= i2 < NUMBER_OF_PROCESS && 0 <= p2 < KSTACK_PAGES && 2 * i2 + p2 < 2 * i + page
            ==> ((#[trigger] pte_view(s0.contents(), page_table, stack_page(i2, p2))) matches Some(e)
                && exists|f: u64| e == #[trigger] leaf_entry(f, KSTACK_PERM) && s0.contents().contains_key(f)),
    ensures
        stacks_apart(mem.contents(), page_table, 2 * i + page + 1),
{
    s0.lemma_wf();
    s0.lemma_wf_spec();
    assert forall|i1: int, p1: int, i2: int, p2: int|
        0 <= i1 < NUMBER_OF_PROCESS && 0 <= p1 < KSTACK_PAGES && 0 <= i2 < NUMBER_OF_PROCESS && 0 <= p2 < KSTACK_PAGES
        && 2 * i1 + p1 < 2 * i + page + 1 && 2 * i2 + p2 < 2 * i + page + 1 && (i1 != i2 || p1 != p2)
        implies #[trigger] pte_view(mem.contents(), page_table, stack_page(i1, p1)) != #[trigger] pte_view(mem.contents(), page_table, stack_page(i2, p2)) by {
        if 2 * i1 + p1 < 2 * i + page && 2 * i2 + p2 < 2 * i + page {
            assert(pte_view(s0.contents(), page_table, stack_page(i1, p1)) != pte_view(s0.contents(), page_table, stack_page(i2, p2)));
        } else {
            let (io, po) = if 2 * i1 + p1 < 2 * i + page { (i1, p1) } else { (i2, p2) };
            assert(2 * io + po < 2 * i + page);
            let e = pte_view(s0.contents(), page_table, stack_page(io, po)).unwrap();
            let fo = choose|f: u64| e == #[trigger] leaf_entry(f, KSTACK_PERM) && s0.contents().contains_key(f);
            assert(fo != pa);
            assert(KSTACK_PERM & ADDR_MASK == 0) by (bit_vector);
            lemma_leaf_addr(fo, KSTACK_PERM);
            lemma_leaf_addr(pa, KSTACK_PERM);
        }
    }
}

proof fn lemma_stack_outside_kept(old_mem: PhysMem, mem: PhysMem, page_table: u64)
    requires
        forall|i2: int, p2: int| 0 <= i2 < NUMBER_OF_PROCESS && 0 <= p2 < KSTACK_PAGES
            ==> #[trigger] pte_view(mem.contents(), page_table, stack_page(i2, p2)) == pte_view(old_mem.contents(), page_table, stack_page(i2, p2))
            || fresh_page_with(old_mem, mem, page_table, KSTACK_PERM, stack_page(i2, p2), junk_page()),
    ensures
        forall|v: u64| in_kstacks(v) ==> #[trigger] pte_view(mem.contents(), page_table, v) == pte_view(old_mem.contents(), page_table, v)
            || fresh_page_with(old_mem, mem, page_table, KSTACK_PERM, v, junk_page()),
{
    assert forall|v: u64| in_kstacks(v) implies #[trigger] pte_view(mem.contents(), page_table, v) == pte_view(old_mem.contents(), page_table, v)
        || fresh_page_with(old_mem, mem, page_table, KSTACK_PERM, v, junk_page()) by {
        let (i, p) = choose|i: int, p: int| 0 <= i < NUMBER_OF_PROCESS && 0 <= p < KSTACK_PAGES && vpn(v) == #[trigger] vpn(stack_page(i, p));
        let b = stack_page(i, p);
        assert(pte_view(mem.contents(), page_table, b) == pte_view(old_mem.contents(), page_table, b)
            || fresh_page_with(old_mem, mem, page_table, KSTACK_PERM, b, junk_page()));
        lemma_same_page(mem.contents(), page_table, v, b);
        lemma_same_page(old_mem.contents(), page_table, v, b);
    }
}

/// Attributes of device registers: EL1 read/write, never executable.
pub const KDEV_PERM: u64 = 0x60_0000_0000_0404;
/// Attributes of kernel text: EL1 read-only, executable at EL1 only.
pub const KTEXT_PERM: u64 = 0x40_0000_0000_0480;

/// The kernel's page attributes, bit by bit.
pub proof fn lemma_kernel_perms()
    ensures
        KDEV_PERM == AF | PXN | UXN | ATTRIDX1 | AP_EL1_RW_EL0_NONE,
        KTEXT_PERM == AF | UXN | ATTRIDX0 | AP_EL1_RO_EL0_NONE,
        KSTACK_PERM == AF | PXN | UXN | ATTRIDX0 | AP_EL1_RW_EL0_NONE,
{
    assert(0x60_0000_0000_0404u64 == 0x400u64 | 0x20_0000_0000_0000u64 | 0x40_0000_0000_0000u64 | 0x4u64 | 0u64
        && 0x40_0000_0000_0480u64 == 0x400u64 | 0x40_0000_0000_0000u64 | 0u64 | 0x80u64
        && 0x60_0000_0000_0400u64 == 0x400u64 | 0x20_0000_0000_0000u64 | 0x40_0000_0000_0000u64 | 0u64 | 0u64) by (bit_vector);
}

/// The identity mapping of `n` pages from `base` with attributes `perm`, if
/// the page of `v` is one of them.
pub open spec fn ident(base: u64, n: int, perm: u64, v: u64) -> Option<u64> {
    if in_pages(base, n, v) { Some(leaf_entry(page_target(base, base, v), perm)) } else { None }
}

/// What the kernel's own tree maps once the first `stage` of its regions are
/// in place; `text_end` is the page-aligned end of the kernel text and
/// `trampoline` the physical address of the trampoline code.
pub open spec fn kernel_map_upto(text_end: u64, trampoline: u64, stage: int, v: u64) -> Option<u64> {
    if stage >= 1 && in_pages(UART0_BASE, 1, v) {
        ident(UART0_BASE, 1, KDEV_PERM, v)
    } else if stage >= 2 && in_pages(VIRTIO0_BASE, 4, v) {
        ident(VIRTIO0_BASE, 4, KDEV_PERM, v)
    } else if stage >= 3 && in_pages(GICD_BASE, 16, v) {
        ident(GICD_BASE, 16, KDEV_PERM, v)
    } else if stage >= 4 && in_pages(GICC_BASE, 16, v) {
        ident(GICC_BASE, 16, KDEV_PERM, v)
    } else if stage >= 5 && in_pages(KERNEL_PHYS_BASE, (text_end - KERNEL_PHYS_BASE) / 4096, v) {
        ident(KERNEL_PHYS_BASE, (text_end - KERNEL_PHYS_BASE) / 4096, KTEXT_PERM, v)
    } else if stage >= 6 && in_pages(text_end, (RAM_END - text_end) / 4096, v) {
        ident(text_end, (RAM_END - text_end) / 4096, KDEV_PERM, v)
    } else if stage >= 7 && in_pages(TRAMPOLINE, 1, v) {
        Some(leaf_entry(page_target(TRAMPOLINE, trampoline, v), KTEXT_PERM))
    } else {
        None
    }
}

/// What the kernel's tree maps outside the kernel stacks.
pub open spec fn kernel_map(text_end: u64, trampoline: u64, v: u64) -> Option<u64> {
    kernel_map_upto(text_end, trampoline, 7, v)
}

/// Every tree that was well formed is unchanged and apart from `root`.
pub open spec fn all_others_kept(old: PhysMem, new: PhysMem, root: u64) -> bool {
    forall|r: u64| #[trigger] pt_wf(old.contents(), old.tables(), r) ==> tree_kept(old.contents(), new.contents(), new.tables(), root, r)
}

/// The start of a new tree: a fresh zeroed table as its root.
fn new_root(mem: &mut PhysMem) -> (r: Option<u64>)
    requires
        old(mem).wf(),
    ensures
        final(mem).wf(),
        mem_step(*old(mem), *final(mem)),
        r is None ==> old(mem).free().len() == 0 && same_mem(*old(mem), *final(mem)),
        r matches Some(root) ==> {
            &&& old(mem).free().len() > 0
            &&& root == old(mem).free().last()
            &&& is_frame_addr(root)
            &&& final(mem).free() == old(mem).free().drop_last()
            &&& final(mem).tables() == old(mem).tables().insert(root)
            &&& pt_wf(final(mem).contents(), final(mem).tables(), root)
            &&& forall|v: u64| #[trigger] pte_view(final(mem).contents(), root, v) is None
            &&& forall|v: u64| !#[trigger] blocked(final(mem).contents(), root, v)
            &&& all_others_kept(*old(mem), *final(mem), root)
        },
{
    let ghost s0 = *mem;
    match k_alloc(mem) {
        None => {
            proof {
                assert(mem.free() =~= s0.free().subrange(0, mem.free().len() as int));
            }
            None
        },
        Some(run) => {
            let root = run.addr;
            mem.zero_frame(root);
            mem.mark_table(root);
            proof {
                s0.lemma_wf();
                let k = s0.free().len() - 1;
                assert(s0.free()[k] == root);
                assert(!s0.tables().contains(root));
                assert(mem.free() =~= s0.free().subrange(0, mem.free().len() as int));
                let m = mem.contents();
                assert(m[root] == zero_page());
                lemma_zero_invalid();
                assert forall|v: u64, l: int| 1 <= l <= 3 implies #[trigger] table_loc(m, root, v, l) is None by {
                    lemma_lidx_bound(0, v);
                    assert(m[root][lidx(0, v) as int] == 0u64);
                    assert(table_loc(m, root, v, 0) == Some(root));
                    assert(table_loc(m, root, v, 1) is None);
                    lemma_loc_none_after(m, root, v, 1, l);
                }
                assert forall|v: u64| #[trigger] pte_view(m, root, v) is None by {
                    assert(table_loc(m, root, v, 3) is None);
                }
                assert forall|v: u64| !#[trigger] blocked(m, root, v) by {
                    lemma_lidx_bound(0, v);
                    assert(m[root][lidx(0, v) as int] == 0u64);
                    assert(table_loc(m, root, v, 0) == Some(root));
                    assert(table_loc(m, root, v, 1) is None);
                    assert(table_loc(m, root, v, 2) is None);
                }
                assert(pt_wf(m, mem.tables(), root));
                assert forall|r: u64| #[trigger] pt_wf(s0.contents(), s0.tables(), r)
                    implies tree_kept(s0.contents(), m, mem.tables(), root, r) by {
                    assert forall|v: u64, l: int| 0 <= l <= 3 && (#[trigger] table_loc(s0.contents(), r, v, l)) is Some
                        implies m[table_loc(s0.contents(), r, v, l).unwrap()] == s0.contents()[table_loc(s0.contents(), r, v, l).unwrap()] by {
                        assert(s0.tables().contains(table_loc(s0.contents(), r, v, l).unwrap()));
                    }
                    lemma_agree(s0.contents(), m, r, s0.tables(), mem.tables());
                    assert forall|v1: u64, l1: int, v2: u64, l2: int|
                        0 <= l1 <= 3 && 0 <= l2 <= 3 && (#[trigger] table_loc(m, root, v1, l1)) is Some
                        implies table_loc(m, root, v1, l1) != #[trigger] table_loc(m, r, v2, l2) by {
                        assert(l1 == 0);
                        if table_loc(m, r, v2, l2) == Some(root) {
                            assert(table_loc(s0.contents(), r, v2, l2) == Some(root));
                        }
                    }
                }
            }
            Some(root)
        },
    }
}

proof fn lemma_kernel_consts(text_end: u64)
    requires
        text_end % 4096 == 0,
        KERNEL_PHYS_BASE <= text_end <= RAM_END,
    ensures
        vpn(UART0_BASE) == 0x9000,
        vpn(VIRTIO0_BASE) == 0xa000,
        vpn(GICD_BASE) == 0x8000,
        vpn(GICC_BASE) == 0x8010,
        vpn(KERNEL_PHYS_BASE) == 0x40080,
        vpn(TRAMPOLINE) == 0x7_FFFF_FFFF,
        vpn(text_end) == text_end / 4096,
        text_end / 4096 * 4096 == text_end,
        0x40080 <= text_end / 4096 <= 0x50000,
        (text_end - KERNEL_PHYS_BASE) / 4096 == text_end / 4096 - 0x40080,
        (RAM_END - text_end) / 4096 == 0x50000 - text_end / 4096,
{
    lemma_vpn_div(UART0_BASE);
    lemma_vpn_div(VIRTIO0_BASE);
    lemma_vpn_div(GICD_BASE);
    lemma_vpn_div(GICC_BASE);
    lemma_vpn_div(KERNEL_PHYS_BASE);
    lemma_vpn_div(TRAMPOLINE);
    lemma_vpn_div(text_end);
    let t = text_end as int;
    assert(t / 4096 * 4096 == t && (t - 0x4008_0000) / 4096 == t / 4096 - 0x40080 && (0x5000_0000 - t) / 4096 == 0x50000 - t / 4096) by (nonlinear_arith)
        requires t % 4096 == 0, 0x4008_0000 <= t <= 0x5000_0000;
}

/// The tree at `root` is well formed, never blocked, and maps exactly `f`.
spec fn tree_is(mem: PhysMem, root: u64, f: spec_fn(u64) -> Option<u64>) -> bool {
    &&& mem.wf()
    &&& pt_wf(mem.contents(), mem.tables(), root)
    &&& forall|v: u64| #[trigger] pte_view(mem.contents(), root, v) == f(v)
    &&& forall|v: u64| !#[trigger] blocked(mem.contents(), root, v)
}

/// Mapping a region where `prev` maps nothing turns a tree that maps `prev`
/// into one that maps `next`.
proof fn lemma_tree_stage(
    a: PhysMem, b: PhysMem, root: u64,
    prev: spec_fn(u64) -> Option<u64>, next: spec_fn(u64) -> Option<u64>,
    va: u64, pa: u64, n: int, perm: u64, ok: bool,
)
    requires
        tree_is(a, root, prev),
        map_base(a, b, root, va, n),
        forall|v: u64| in_pages(va, n, v) ==> #[trigger] pte_view(b.contents(), root, v) == pte_view(a.contents(), root, v)
            || newly_mapped(a, b, root, va, pa, perm, v),
        ok ==> forall|v: u64| in_pages(va, n, v) ==> #[trigger] newly_mapped(a, b, root, va, pa, perm, v),
        forall|v: u64| #[trigger] next(v) == if in_pages(va, n, v) {
            Some(leaf_entry(page_target(va, pa, v), perm))
        } else {
            prev(v)
        },
        forall|v: u64| in_pages(va, n, v) ==> #[trigger] prev(v) is None,
    ensures
        ok ==> tree_is(b, root, next),
        forall|v: u64| in_pages(va, n, v) ==> (#[trigger] pte_view(a.contents(), root, v)) is None && !blocked(a.contents(), root, v),
{
    if ok {
        assert forall|v: u64| #[trigger] pte_view(b.contents(), root, v) == next(v) by {
            if in_pages(va, n, v) {
                assert(newly_mapped(a, b, root, va, pa, perm, v));
            }
        }
    }
}

proof fn lemma_kvm_chain(m0: PhysMem, a: PhysMem, b: PhysMem, root: u64)
    requires
        mem_step(m0, a),
        all_others_kept(m0, a, root),
        mem_step(a, b) || table_step(a, b),
        others_kept(a.contents(), a.tables(), b.contents(), b.tables(), root),
    ensures
        mem_step(m0, b),
        all_others_kept(m0, b, root),
{
    if table_step(a, b) {
        lemma_table_step_is_mem_step(a, b);
    }
    lemma_mem_step_trans(m0, a, b);
    assert forall|r: u64| #[trigger] pt_wf(m0.contents(), m0.tables(), r) implies tree_kept(m0.contents(), b.contents(), b.tables(), root, r) by {
        assert(tree_kept(m0.contents(), a.contents(), a.tables(), root, r));
        assert(pt_disjoint(a.contents(), root, r));
        assert(tree_kept(a.contents(), b.contents(), b.tables(), root, r));
    }
}

proof fn lemma_kstacks_apart(text_end: u64, trampoline: u64, v: u64)
    requires
        in_kstacks(v),
        text_end % 4096 == 0,
        KERNEL_PHYS_BASE <= text_end <= RAM_END,
    ensures
        kernel_map(text_end, trampoline, v) is None,
{
    let (i, p) = choose|i: int, p: int| 0 <= i < NUMBER_OF_PROCESS && 0 <= p < KSTACK_PAGES && vpn(v) == #[trigger] vpn(stack_page(i, p));
    lemma_stack_vpn(i, p);
    lemma_kernel_consts(text_end);
}

/// Builds the kernel's own tree: device registers, kernel text, the rest of
/// RAM, the trampoline, and a kernel stack per process. `etext` is the end
/// of the kernel text and `trampoline` the physical address of the
/// trampoline code (both from the linker). Returns the root table.
pub fn k_vm_init(mem: &mut PhysMem, etext: u64, trampoline: u64) -> (r: Result<u64, MapError>)
    requires
        old(mem).wf(),
        etext + 4096 <= u64::MAX,
        KERNEL_PHYS_BASE <= round_up_spec(etext as int) <= RAM_END,
        trampoline % 4096 == 0 ==> trampoline + 4096 <= u64::MAX,
    ensures
        final(mem).wf(),
        mem_step(*old(mem), *final(mem)),
        r matches Ok(root) ==> {
            let text_end = round_up_spec(etext as int) as u64;
            &&& text_end != KERNEL_PHYS_BASE && text_end != RAM_END && trampoline % 4096 == 0
            &&& old(mem).free().contains(root)
            &&& pt_wf(final(mem).contents(), final(mem).tables(), root)
            &&& all_others_kept(*old(mem), *final(mem), root)
            &&& forall|v: u64| !in_kstacks(v) ==> #[trigger] pte_view(final(mem).contents(), root, v) == kernel_map(text_end, trampoline, v)
            &&& forall|i: int, p: int| 0 <= i < NUMBER_OF_PROCESS && 0 <= p < KSTACK_PAGES
                    ==> #[trigger] backed_by_fresh(*old(mem), *final(mem), root, KSTACK_PERM, stack_page(i, p), junk_page())
            &&& stacks_apart(final(mem).contents(), root, 2 * NUMBER_OF_PROCESS)
            &&& forall|v: u64| !#[trigger] blocked(final(mem).contents(), root, v)
        },
        r matches Err(e) ==> {
            ||| e == MapError::AllocationFailed && final(mem).free().len() == 0
            ||| e == MapError::ZeroSize && (round_up_spec(etext as int) == KERNEL_PHYS_BASE || round_up_spec(etext as int) == RAM_END)
            ||| e == MapError::UnalignedAddress && trampoline % 4096 != 0
        },
{
    let ghost m0 = *mem;
    let page_table = match new_root(mem) {
        None => {
            return Err(MapError::AllocationFailed);
        },
        Some(root) => root,
    };
    let ghost m1 = *mem;
    let text_end = page_round_up(etext);
    proof {
        assert(mem_step(m0, m1));
        assert(all_others_kept(m0, m1, page_table));
        lemma_kernel_consts(text_end);
        assert(tree_is(m1, page_table, |v: u64| kernel_map_upto(text_end, trampoline, 0, v)));
    }

    // map uart no executable and read/write
    let ghost a = *mem;
    let r1 = map_pages(mem, page_table, UART0_BASE, UART0_BASE, PAGE_SIZE as u64, KDEV_PERM);
    proof {
        lemma_tree_stage(a, *mem, page_table, |v: u64| kernel_map_upto(text_end, trampoline, 0, v), |v: u64| kernel_map_upto(text_end, trampoline, 1, v), UART0_BASE, UART0_BASE, 1, KDEV_PERM, r1 is Ok);
        lemma_kvm_chain(m0, a, *mem, page_table);
    }
    match r1 {
        Err(e) => {
            return Err(e);
        },
        Ok(()) => {},
    }

    // map virtio mmio disk interface read/write
    let ghost a = *mem;
    let r2 = map_pages(mem, page_table, VIRTIO0_BASE, VIRTIO0_BASE, 4 * PAGE_SIZE as u64, KDEV_PERM);
    proof {
        lemma_tree_stage(a, *mem, page_table, |v: u64| kernel_map_upto(text_end, trampoline, 1, v), |v: u64| kernel_map_upto(text_end, trampoline, 2, v), VIRTIO0_BASE, VIRTIO0_BASE, 4, KDEV_PERM, r2 is Ok);
        lemma_kvm_chain(m0, a, *mem, page_table);
    }
    match r2 {
        Err(e) => {
            return Err(e);
        },
        Ok(()) => {},
    }

    // map GIC no executable and read/write
    let ghost a = *mem;
    let r3 = map_pages(mem, page_table, GICD_BASE, GICD_BASE, GICD_SIZE, KDEV_PERM);
    proof {
        lemma_tree_stage(a, *mem, page_table, |v: u64| kernel_map_upto(text_end, trampoline, 2, v), |v: u64| kernel_map_upto(text_end, trampoline, 3, v), GICD_BASE, GICD_BASE, 16, KDEV_PERM, r3 is Ok);
        lemma_kvm_chain(m0, a, *mem, page_table);
    }
    match r3 {
        Err(e) => {
            return Err(e);
        },
        Ok(()) => {},
    }
    let ghost a = *mem;
    let r4 = map_pages(mem, page_table, GICC_BASE, GICC_BASE, GICC_SIZE, KDEV_PERM);
    proof {
        lemma_tree_stage(a, *mem, page_table, |v: u64| kernel_map_upto(text_end, trampoline, 3, v), |v: u64| kernel_map_upto(text_end, trampoline, 4, v), GICC_BASE, GICC_BASE, 16, KDEV_PERM, r4 is Ok);
        lemma_kvm_chain(m0, a, *mem, page_table);
    }
    match r4 {
        Err(e) => {
            return Err(e);
        },
        Ok(()) => {},
    }

    // map kernel text executable and read-only.
    let text_size = text_end - KERNEL_PHYS_BASE;
    let ghost a = *mem;
    let r5 = map_pages(mem, page_table, KERNEL_PHYS_BASE, KERNEL_PHYS_BASE, text_size, KTEXT_PERM);
    if text_size != 0 {
        proof {
            lemma_tree_stage(a, *mem, page_table, |v: u64| kernel_map_upto(text_end, trampoline, 4, v), |v: u64| kernel_map_upto(text_end, trampoline, 5, v), KERNEL_PHYS_BASE, KERNEL_PHYS_BASE, (text_size / 4096) as int, KTEXT_PERM, r5 is Ok);
            lemma_kvm_chain(m0, a, *mem, page_table);
        }
    }
    match r5 {
        Err(e) => {
            return Err(e);
        },
        Ok(()) => {},
    }

    // map kernel data and the physical RAM we'll make use of.
    let ram_size = RAM_END as u64 - text_end;
    let ghost a = *mem;
    let r6 = map_pages(mem, page_table, text_end, text_end, ram_size, KDEV_PERM);
    if ram_size != 0 {
        proof {
            lemma_tree_stage(a, *mem, page_table, |v: u64| kernel_map_upto(text_end, trampoline, 5, v), |v: u64| kernel_map_upto(text_end, trampoline, 6, v), text_end, text_end, (ram_size / 4096) as int, KDEV_PERM, r6 is Ok);
            lemma_kvm_chain(m0, a, *mem, page_table);
        }
    }
    match r6 {
        Err(e) => {
            return Err(e);
        },
        Ok(()) => {},
    }

    // map the trampoline for trap entry/exit to the highest virtual address
    // in the kernel.
    let ghost a = *mem;
    let r7 = map_pages(mem, page_table, TRAMPOLINE, trampoline, PAGE_SIZE as u64, KTEXT_PERM);
    if trampoline % 4096 == 0 {
        proof {
            lemma_tree_stage(a, *mem, page_table, |v: u64| kernel_map_upto(text_end, trampoline, 6, v), |v: u64| kernel_map_upto(text_end, trampoline, 7, v), TRAMPOLINE, trampoline, 1, KTEXT_PERM, r7 is Ok);
            lemma_kvm_chain(m0, a, *mem, page_table);
        }
    }
    match r7 {
        Err(e) => {
            return Err(e);
        },
        Ok(()) => {},
    }

    // Allocate and map a kernel stack for each process.
    let ghost a = *mem;
    let r8 = proc_map_stacks(mem, page_table);
    proof {
        assert(tree_is(a, page_table, |v: u64| kernel_map_upto(text_end, trampoline, 7, v)));
        lemma_kvm_chain(m0, a, *mem, page_table);
    }
    match r8 {
        Err(e) => {
            proof {
                if e == MapError::AlreadyMapped {
                    let v = choose|v: u64| in_kstacks(v) && (#[trigger] pte_view(a.contents(), page_table, v)) is Some;
                    lemma_kstacks_apart(text_end, trampoline, v);
                }
                if e == MapError::WalkFailed {
                    let v = choose|v: u64| in_kstacks(v) && #[trigger] blocked(a.contents(), page_table, v);
                }
            }
            return Err(e);
        },
        Ok(()) => {},
    }
    proof {
        assert forall|i: int, p: int| 0 <= i < NUMBER_OF_PROCESS && 0 <= p < KSTACK_PAGES
            implies #[trigger] backed_by_fresh(m0, *mem, page_table, KSTACK_PERM, stack_page(i, p), junk_page()) by {
            assert(fresh_page_with(a, *mem, page_table, KSTACK_PERM, stack_page(i, p), junk_page()));
            let e = pte_view(mem.contents(), page_table, stack_page(i, p)).unwrap();
            let f = choose|f: u64| {
                &&& e == #[trigger] leaf_entry(f, KSTACK_PERM)
                &&& a.free().contains(f)
                &&& !mem.tables().contains(f)
                &&& mem.contents().contains_key(f)
                &&& mem.contents()[f] == junk_page()
            };
            assert(m0.free().contains(f)) by {
                let j = choose|j: int| 0 <= j < a.free().len() && a.free()[j] == f;
                assert(m0.free()[j] == f);
            }
        }
        assert forall|v: u64| !in_kstacks(v) implies #[trigger] pte_view(mem.contents(), page_table, v) == kernel_map(text_end, trampoline, v) by {
            assert(pte_view(a.contents(), page_table, v) == kernel_map_upto(text_end, trampoline, 7, v));
        }
    }
    Ok(page_table)
}

/// Attributes of the trampoline page in a user tree: read-only at EL1 and
/// EL0, executable at EL1 only.
pub const UTRAMP_PERM: u64 = 0x40_0000_0000_04C0;
/// Attributes of the trap-frame page in a user tree: read/write at EL1 and
/// EL0.
pub const TRAPFRAME_PERM: u64 = 0x440;

/// The attributes of a user tree's trampoline and trap-frame pages, bit by
/// bit.
pub proof fn lemma_user_perms()
    ensures
        UTRAMP_PERM == AF | UXN | ATTRIDX0 | AP_EL1_RO_EL0_RO,
        TRAPFRAME_PERM == AF | ATTRIDX0 | AP_EL1_RW_EL0_RW,
{
    assert(0x40_0000_0000_04C0u64 == 0x400u64 | 0x40_0000_0000_0000u64 | 0u64 | 0xC0u64
        && 0x440u64 == 0x400u64 | 0u64 | 0x40u64) by (bit_vector);
}

/// What a new process's tree maps outside the kernel stacks once the first
/// `stage` regions are in place: kernel text, trampoline, trap frame (at
/// `trap_frame`), kernel data and RAM, UART and GIC.
pub open spec fn proc_map_upto(text_end: u64, trampoline: u64, trap_frame: u64, stage: int, v: u64) -> Option<u64> {
    if stage >= 1 && in_pages(KERNEL_PHYS_BASE, (text_end - KERNEL_PHYS_BASE) / 4096, v) {
        ident(KERNEL_PHYS_BASE, (text_end - KERNEL_PHYS_BASE) / 4096, KTEXT_PERM, v)
    } else if stage >= 2 && in_pages(TRAMPOLINE, 1, v) {
        Some(leaf_entry(page_target(TRAMPOLINE, trampoline, v), UTRAMP_PERM))
    } else if stage >= 3 && in_pages(TRAP_FRAME, 1, v) {
        Some(leaf_entry(page_target(TRAP_FRAME, trap_frame, v), TRAPFRAME_PERM))
    } else if stage >= 4 && in_pages(text_end, (RAM_END - text_end) / 4096, v) {
        ident(text_end, (RAM_END - text_end) / 4096, KDEV_PERM, v)
    } else if stage >= 5 && in_pages(UART0_BASE, 1, v) {
        ident(UART0_BASE, 1, KDEV_PERM, v)
    } else if stage >= 6 && in_pages(GICD_BASE, 16, v) {
        ident(GICD_BASE, 16, KDEV_PERM, v)
    } else if stage >= 7 && in_pages(GICC_BASE, 16, v) {
        ident(GICC_BASE, 16, KDEV_PERM, v)
    } else {
        None
    }
}

/// What a new process's tree maps outside the kernel stacks.
pub open spec fn proc_map(text_end: u64, trampoline: u64, trap_frame: u64, v: u64) -> Option<u64> {
    proc_map_upto(text_end, trampoline, trap_frame, 7, v)
}

/// The leaf a process's tree holds for kernel stack page `sp`: the frame
/// the kernel's tree maps there.
pub open spec fn stack_leaf(m: Map<u64, Seq<u64>>, kpt: u64, sp: u64) -> Option<u64> {
    match pte_view(m, kpt, sp) {
        Some(e) => Some(leaf_entry(e & ADDR_MASK, KSTACK_PERM)),
        None => None,
    }
}

/// How far below the trampoline's page the page of `v` lies, in pages.
pub open spec fn stack_pos(v: u64) -> int {
    0x7_FFFF_FFFF - vpn(v)
}

/// The page of `v` is a kernel stack page of a process before `i`, or one of
/// the first `page` pages of process `i`'s stack.
pub open spec fn kstack_done(i: int, page: int, v: u64) -> bool {
    &&& in_kstacks(v)
    &&& (stack_pos(v) <= 3 * i || (page >= 1 && stack_pos(v) == 3 * i + 3) || (page >= 2 && stack_pos(v) == 3 * i + 2))
}

proof fn lemma_in_kstacks(v: u64)
    ensures
        in_kstacks(v) <==> (2 <= stack_pos(v) <= 30 && stack_pos(v) % 3 != 1),
{
    if in_kstacks(v) {
        let (i, p) = choose|i: int, p: int| 0 <= i < NUMBER_OF_PROCESS && 0 <= p < KSTACK_PAGES && vpn(v) == #[trigger] vpn(stack_page(i, p));
        lemma_stack_vpn(i, p);
    }
    if 2 <= stack_pos(v) <= 30 && stack_pos(v) % 3 != 1 {
        let d = stack_pos(v);
        let p: int = if d % 3 == 0 { 0 } else { 1 };
        let i: int = (d + p) / 3 - 1;
        lemma_stack_vpn(i, p);
        assert(vpn(v) == vpn(stack_page(i, p)));
    }
}

/// Maps each kernel stack page in the tree at `page_table` to the frame
/// that `kpt`, the kernel's tree, maps it to: the last step of
/// `proc_page_table`.
#[verifier::rlimit(50)]
fn map_kernel_stacks(mem: &mut PhysMem, page_table: u64, kpt: u64) -> (r: Result<(), MapError>)
    requires
        old(mem).wf(),
        pt_wf(old(mem).contents(), old(mem).tables(), page_table),
        pt_wf(old(mem).contents(), old(mem).tables(), kpt),
        pt_disjoint(old(mem).contents(), page_table, kpt),
        forall|v: u64| !#[trigger] blocked(old(mem).contents(), page_table, v),
        forall|v: u64| in_kstacks(v) ==> (#[trigger] pte_view(old(mem).contents(), page_table, v)) is None,
    ensures
        final(mem).wf(),
        mem_step(*old(mem), *final(mem)),
        pt_wf(final(mem).contents(), final(mem).tables(), kpt),
        forall|v: u64| #[trigger] pte_view(final(mem).contents(), kpt, v) == pte_view(old(mem).contents(), kpt, v),
        r is Ok ==> {
            &&& pt_wf(final(mem).contents(), final(mem).tables(), page_table)
            &&& others_kept(old(mem).contents(), old(mem).tables(), final(mem).contents(), final(mem).tables(), page_table)
            &&& tree_kept(old(mem).contents(), final(mem).contents(), final(mem).tables(), page_table, kpt)
            &&& forall|v: u64| !#[trigger] blocked(final(mem).contents(), page_table, v)
            &&& forall|v: u64| #[trigger] pte_view(final(mem).contents(), page_table, v)
                    == if in_kstacks(v) { stack_leaf(old(mem).contents(), kpt, v) } else { pte_view(old(mem).contents(), page_table, v) }
            &&& forall|v: u64| in_kstacks(v) ==> (#[trigger] stack_leaf(old(mem).contents(), kpt, v)) is Some
        },
        r matches Err(e) ==> {
            ||| e == MapError::AllocationFailed && final(mem).free().len() == 0
            ||| e == MapError::WalkFailed && exists|i: int, q: int| 0 <= i < NUMBER_OF_PROCESS && 0 <= q < KSTACK_PAGES
                    && (#[trigger] pte_view(old(mem).contents(), kpt, stack_page(i, q))) is None
        },
{
    let ghost m0 = *mem;
    proof {
        lemma_others_refl(mem.contents(), mem.tables(), page_table);
        assert(mem.free() =~= m0.free().subrange(0, mem.free().len() as int));
        lemma_disjoint_sym(mem.contents(), page_table, kpt);
        assert forall|v: u64| #[trigger] pte_view(mem.contents(), page_table, v)
            == if kstack_done(0, 0, v) { stack_leaf(m0.contents(), kpt, v) } else { pte_view(m0.contents(), page_table, v) } by {
            lemma_in_kstacks(v);
        }
        assert forall|v: u64| kstack_done(0, 0, v) implies (#[trigger] stack_leaf(m0.contents(), kpt, v)) is Some by {
            lemma_in_kstacks(v);
        }
    }
    for i in 0..NUMBER_OF_PROCESS
        invariant
            m0 == *old(mem),
            mem.wf(),
            mem_step(m0, *mem),
            pt_wf(mem.contents(), mem.tables(), page_table),
            others_kept(m0.contents(), m0.tables(), mem.contents(), mem.tables(), page_table),
            pt_wf(m0.contents(), m0.tables(), kpt),
            pt_disjoint(m0.contents(), page_table, kpt),
            forall|v: u64| in_kstacks(v) ==> (#[trigger] pte_view(m0.contents(), page_table, v)) is None,
            tree_kept(m0.contents(), mem.contents(), mem.tables(), page_table, kpt),
            forall|v: u64| !#[trigger] blocked(mem.contents(), page_table, v),
            forall|v: u64| #[trigger] pte_view(mem.contents(), page_table, v)
                == if kstack_done(i as int, 0, v) { stack_leaf(m0.contents(), kpt, v) } else { pte_view(m0.contents(), page_table, v) },
            forall|v: u64| kstack_done(i as int, 0, v) ==> (#[trigger] stack_leaf(m0.contents(), kpt, v)) is Some,
    {
        proof {
            assert((i + 1) * 12288 <= 0x7FFF_FFFF_F000) by (nonlinear_arith) requires i < 10;
        }
        let stack_va = k_stack(i);
        for page in 0..KSTACK_PAGES
            invariant
                m0 == *old(mem),
                0 <= i < NUMBER_OF_PROCESS,
                stack_va == TRAMPOLINE - (i + 1) * 12288,
                mem.wf(),
                mem_step(m0, *mem),
                pt_wf(mem.contents(), mem.tables(), page_table),
                others_kept(m0.contents(), m0.tables(), mem.contents(), mem.tables(), page_table),
                pt_wf(m0.contents(), m0.tables(), kpt),
                pt_disjoint(m0.contents(), page_table, kpt),
                forall|v: u64| in_kstacks(v) ==> (#[trigger] pte_view(m0.contents(), page_table, v)) is None,
                tree_kept(m0.contents(), mem.contents(), mem.tables(), page_table, kpt),
                forall|v: u64| !#[trigger] blocked(mem.contents(), page_table, v),
                forall|v: u64| #[trigger] pte_view(mem.contents(), page_table, v)
                    == if kstack_done(i as int, page as int, v) { stack_leaf(m0.contents(), kpt, v) } else { pte_view(m0.contents(), page_table, v) },
                forall|v: u64| kstack_done(i as int, page as int, v) ==> (#[trigger] stack_leaf(m0.contents(), kpt, v)) is Some,
        {
            let va = stack_va + page * PAGE_SIZE as u64;
            proof {
                lemma_stack_vpn(i as int, page as int);
                assert(va == stack_page(i as int, page as int));
                lemma_vpn_div(va);
                lemma_in_kstacks(va);
                lemma_disjoint_sym(mem.contents(), page_table, kpt);
            }
            let ghost a = *mem;
            let t = kvm_translate(mem, kpt, va);
            proof {
                assert(pte_view(a.contents(), kpt, va) == pte_view(m0.contents(), kpt, va));
            }
            let stack_phys = match t {
                Err(e) => {
                    proof {
                        lemma_table_step_is_mem_step(a, *mem);
                        lemma_mem_step_trans(m0, a, *mem);
                        assert(pte_view(m0.contents(), kpt, stack_page(i as int, page as int)) is None);
                        assert(tree_kept(a.contents(), mem.contents(), mem.tables(), kpt, page_table) || true);
                        assert forall|v: u64| #[trigger] pte_view(mem.contents(), kpt, v) == pte_view(m0.contents(), kpt, v) by {
                            assert(pte_view(a.contents(), kpt, v) == pte_view(m0.contents(), kpt, v));
                        }
                    }
                    return Err(e);
                },
                Ok(x) => x,
            };
            proof {
                assert(pte_view(a.contents(), kpt, va) is Some);
                assert(same_mem(a, *mem));
                let e = pte_view(m0.contents(), kpt, va).unwrap();
                assert(stack_phys == e & ADDR_MASK);
                lemma_addr_bits(e);
                assert(!kstack_done(i as int, page as int, va));
                assert(in_kstacks(va));
                assert(pte_view(m0.contents(), page_table, va) is None);
                assert(pte_view(a.contents(), page_table, va) == pte_view(m0.contents(), page_table, va));
                assert(pte_view(a.contents(), page_table, va) is None);
            }
            let ghost b = *mem;
            let r = map_pages(mem, page_table, va, stack_phys, PAGE_SIZE as u64, KSTACK_PERM);
            proof {
                lemma_table_step_is_mem_step(b, *mem);
                lemma_mem_step_trans(m0, b, *mem);
                lemma_others_trans(m0.contents(), m0.tables(), b.contents(), b.tables(), mem.contents(), mem.tables(), page_table);
                assert(pt_disjoint(b.contents(), page_table, kpt));
                assert(tree_kept(b.contents(), mem.contents(), mem.tables(), page_table, kpt));
                assert(pte_view(b.contents(), page_table, va) is None);
                assert forall|v: u64| #[trigger] pte_view(mem.contents(), kpt, v) == pte_view(m0.contents(), kpt, v) by {
                    assert(pte_view(b.contents(), kpt, v) == pte_view(m0.contents(), kpt, v));
                }
            }
            match r {
                Err(e) => {
                    proof {
                        if e == MapError::AlreadyMapped {
                            let v = choose|v: u64| in_pages(va, 1, v) && (#[trigger] pte_view(b.contents(), page_table, v)) is Some;
                            lemma_same_page(b.contents(), page_table, v, va);
                            assert(pfx(4, v) == pfx(4, va));
                        }
                        if e == MapError::WalkFailed {
                            let v = choose|v: u64| in_pages(va, 1, v) && #[trigger] blocked(b.contents(), page_table, v);
                        }
                    }
                    return Err(e);
                },
                Ok(()) => {},
            }
            proof {
                assert forall|v: u64| #[trigger] pte_view(mem.contents(), page_table, v)
                    == if kstack_done(i as int, page as int + 1, v) { stack_leaf(m0.contents(), kpt, v) } else { pte_view(m0.contents(), page_table, v) } by {
                    lemma_in_kstacks(v);
                    if in_pages(va, 1, v) {
                        assert(newly_mapped(b, *mem, page_table, va, stack_phys, KSTACK_PERM, v));
                        lemma_same_page(m0.contents(), kpt, v, va);
                        assert(pfx(4, v) == pfx(4, va));
                    }
                }
                assert forall|v: u64| kstack_done(i as int, page as int + 1, v) implies (#[trigger] stack_leaf(m0.contents(), kpt, v)) is Some by {
                    lemma_in_kstacks(v);
                    if vpn(v) == vpn(va) {
                        lemma_same_page(m0.contents(), kpt, v, va);
                        assert(pfx(4, v) == pfx(4, va));
                    }
                }
            }
        }
        proof {
            assert forall|v: u64| #[trigger] kstack_done(i as int, 2, v) == kstack_done(i as int + 1, 0, v) by {
                lemma_in_kstacks(v);
            }
        }
    }
    proof {
        assert forall|v: u64| #[trigger] pte_view(mem.contents(), page_table, v)
            == if in_kstacks(v) { stack_leaf(m0.contents(), kpt, v) } else { pte_view(m0.contents(), page_table, v) } by {
            lemma_in_kstacks(v);
        }
        assert forall|v: u64| in_kstacks(v) implies (#[trigger] stack_leaf(m0.contents(), kpt, v)) is Some by {
            lemma_in_kstacks(v);
        }
        assert forall|v: u64| #[trigger] pte_view(mem.contents(), kpt, v) == pte_view(m0.contents(), kpt, v) by {}
    }
    Ok(())
}

#[verifier::rlimit(100)]
/// Builds a new process's tree: kernel text, the trampoline, its trap
/// frame, kernel data and RAM, the UART and the GIC, and every process's
/// kernel stack at the frames `kpt`, the kernel's tree, maps them to.
/// `etext` and `trampoline` come from the linker. Returns the root table.
pub fn proc_page_table(mem: &mut PhysMem, p: &Process, kpt: u64, etext: u64, trampoline: u64) -> (r: Result<u64, MapError>)
    requires
        old(mem).wf(),
        pt_wf(old(mem).contents(), old(mem).tables(), kpt),
        etext + 4096 <= u64::MAX,
        KERNEL_PHYS_BASE <= round_up_spec(etext as int) <= RAM_END,
        trampoline % 4096 == 0 ==> trampoline + 4096 <= u64::MAX,
        p.trap_frame % 4096 == 0 ==> p.trap_frame + 4096 <= u64::MAX,
    ensures
        final(mem).wf(),
        mem_step(*old(mem), *final(mem)),
        pt_wf(final(mem).contents(), final(mem).tables(), kpt),
        forall|v: u64| #[trigger] pte_view(final(mem).contents(), kpt, v) == pte_view(old(mem).contents(), kpt, v),
        r matches Ok(root) ==> {
            let text_end = round_up_spec(etext as int) as u64;
            &&& old(mem).free().contains(root)
            &&& pt_wf(final(mem).contents(), final(mem).tables(), root)
            &&& all_others_kept(*old(mem), *final(mem), root)
            &&& forall|v: u64| !in_kstacks(v) ==> #[trigger] pte_view(final(mem).contents(), root, v) == proc_map(text_end, trampoline, p.trap_frame, v)
            &&& forall|i: int, q: int| 0 <= i < NUMBER_OF_PROCESS && 0 <= q < KSTACK_PAGES
                    ==> #[trigger] pte_view(final(mem).contents(), root, stack_page(i, q)) == stack_leaf(old(mem).contents(), kpt, stack_page(i, q))
                    && stack_leaf(old(mem).contents(), kpt, stack_page(i, q)) is Some
            &&& forall|v: u64| !#[trigger] blocked(final(mem).contents(), root, v)
        },
        old(mem).free().len() == 0 ==> r == Err::<u64, MapError>(MapError::AllocationFailed) && same_mem(*old(mem), *final(mem)),
        r matches Err(e) ==> {
            ||| e == MapError::AllocationFailed && final(mem).free().len() == 0
            ||| e == MapError::ZeroSize && (round_up_spec(etext as int) == KERNEL_PHYS_BASE || round_up_spec(etext as int) == RAM_END)
            ||| e == MapError::UnalignedAddress && (trampoline % 4096 != 0 || p.trap_frame % 4096 != 0)
            ||| e == MapError::WalkFailed && exists|i: int, q: int| 0 <= i < NUMBER_OF_PROCESS && 0 <= q < KSTACK_PAGES
                    && (#[trigger] pte_view(old(mem).contents(), kpt, stack_page(i, q))) is None
        },
{
    let ghost m0 = *mem;
    let page_table = match new_root(mem) {
        None => {
            return Err(MapError::AllocationFailed);
        },
        Some(root) => root,
    };
    let ghost m1 = *mem;
    let text_end = page_round_up(etext);
    let tf = p.trap_frame;
    proof {
        lemma_kernel_consts(text_end);
        lemma_vpn_div(TRAP_FRAME);
        assert(mem_step(m0, m1));
        assert(all_others_kept(m0, m1, page_table));
        assert(tree_kept(m0.contents(), m1.contents(), m1.tables(), page_table, kpt));
        assert(tree_is(m1, page_table, |v: u64| proc_map_upto(text_end, trampoline, tf, 0, v)));
    }

    let text_size = text_end - KERNEL_PHYS_BASE;
    let ghost a = *mem;
    let r1 = map_pages(mem, page_table, KERNEL_PHYS_BASE, KERNEL_PHYS_BASE, text_size, KTEXT_PERM);
    if text_size != 0 {
        proof {
            lemma_tree_stage(a, *mem, page_table, |v: u64| proc_map_upto(text_end, trampoline, tf, 0, v), |v: u64| proc_map_upto(text_end, trampoline, tf, 1, v), KERNEL_PHYS_BASE, KERNEL_PHYS_BASE, (text_size / 4096) as int, KTEXT_PERM, r1 is Ok);
            lemma_kvm_chain(m0, a, *mem, page_table);
        }
    }
    match r1 {
        Err(e) => {
            return Err(e);
        },
        Ok(()) => {},
    }

    // map the trampoline code (for system call return) at the highest user
    // virtual address; only the supervisor uses it.
    let ghost a = *mem;
    let r2 = map_pages(mem, page_table, TRAMPOLINE, trampoline, PAGE_SIZE as u64, UTRAMP_PERM);
    if trampoline % 4096 == 0 {
        proof {
            lemma_tree_stage(a, *mem, page_table, |v: u64| proc_map_upto(text_end, trampoline, tf, 1, v), |v: u64| proc_map_upto(text_end, trampoline, tf, 2, v), TRAMPOLINE, trampoline, 1, UTRAMP_PERM, r2 is Ok);
            lemma_kvm_chain(m0, a, *mem, page_table);
        }
    }
    match r2 {
        Err(e) => {
            return Err(e);
        },
        Ok(()) => {},
    }

    // map the trapframe page just below the trampoline page.
    let ghost a = *mem;
    let r3 = map_pages(mem, page_table, TRAP_FRAME, tf, PAGE_SIZE as u64, TRAPFRAME_PERM);
    if tf % 4096 == 0 {
        proof {
            lemma_tree_stage(a, *mem, page_table, |v: u64| proc_map_upto(text_end, trampoline, tf, 2, v), |v: u64| proc_map_upto(text_end, trampoline, tf, 3, v), TRAP_FRAME, tf, 1, TRAPFRAME_PERM, r3 is Ok);
            lemma_kvm_chain(m0, a, *mem, page_table);
        }
    }
    match r3 {
        Err(e) => {
            return Err(e);
        },
        Ok(()) => {},
    }

    // Kernel data, BSS and free RAM, no EL0 access.
    let ram_size = RAM_END as u64 - text_end;
    let ghost a = *mem;
    let r4 = map_pages(mem, page_table, text_end, text_end, ram_size, KDEV_PERM);
    if ram_size != 0 {
        proof {
            lemma_tree_stage(a, *mem, page_table, |v: u64| proc_map_upto(text_end, trampoline, tf, 3, v), |v: u64| proc_map_upto(text_end, trampoline, tf, 4, v), text_end, text_end, (ram_size / 4096) as int, KDEV_PERM, r4 is Ok);
            lemma_kvm_chain(m0, a, *mem, page_table);
        }
    }
    match r4 {
        Err(e) => {
            return Err(e);
        },
        Ok(()) => {},
    }

    // UART registers, needed by the log calls inside system-call handlers.
    let ghost a = *mem;
    let r5 = map_pages(mem, page_table, UART0_BASE, UART0_BASE, PAGE_SIZE as u64, KDEV_PERM);
    proof {
        lemma_tree_stage(a, *mem, page_table, |v: u64| proc_map_upto(text_end, trampoline, tf, 4, v), |v: u64| proc_map_upto(text_end, trampoline, tf, 5, v), UART0_BASE, UART0_BASE, 1, KDEV_PERM, r5 is Ok);
        lemma_kvm_chain(m0, a, *mem, page_table);
    }
    match r5 {
        Err(e) => {
            return Err(e);
        },
        Ok(()) => {},
    }

    // GIC distributor and CPU interface, needed by interrupt handlers.
    let ghost a = *mem;
    let r6 = map_pages(mem, page_table, GICD_BASE, GICD_BASE, GICD_SIZE, KDEV_PERM);
    proof {
        lemma_tree_stage(a, *mem, page_table, |v: u64| proc_map_upto(text_end, trampoline, tf, 5, v), |v: u64| proc_map_upto(text_end, trampoline, tf, 6, v), GICD_BASE, GICD_BASE, 16, KDEV_PERM, r6 is Ok);
        lemma_kvm_chain(m0, a, *mem, page_table);
    }
    match r6 {
        Err(e) => {
            return Err(e);
        },
        Ok(()) => {},
    }
    let ghost a = *mem;
    let r7 = map_pages(mem, page_table, GICC_BASE, GICC_BASE, GICC_SIZE, KDEV_PERM);
    proof {
        lemma_tree_stage(a, *mem, page_table, |v: u64| proc_map_upto(text_end, trampoline, tf, 6, v), |v: u64| proc_map_upto(text_end, trampoline, tf, 7, v), GICC_BASE, GICC_BASE, 16, KDEV_PERM, r7 is Ok);
        lemma_kvm_chain(m0, a, *mem, page_table);
    }
    match r7 {
        Err(e) => {
            return Err(e);
        },
        Ok(()) => {},
    }

    // Kernel stacks: the scheduler may switch to another process's stack
    // before it switches tables, so every tree maps every kernel stack.
    let ghost m7 = *mem;
    proof {
        assert(tree_kept(m0.contents(), m7.contents(), m7.tables(), page_table, kpt));
        assert forall|v: u64| in_kstacks(v) implies #[trigger] pte_view(m7.contents(), page_table, v) is None by {
            lemma_in_kstacks(v);
            lemma_kernel_consts(text_end);
        }
    }
    let rs = map_kernel_stacks(mem, page_table, kpt);
    proof {
        assert(pt_disjoint(m7.contents(), page_table, kpt));
        assert(tree_kept(m7.contents(), mem.contents(), mem.tables(), page_table, kpt) || rs is Err);
        lemma_mem_step_trans(m0, m7, *mem);
        if rs is Ok {
            lemma_kvm_chain(m0, m7, *mem, page_table);
        }
    }
    match rs {
        Err(e) => {
            proof {
                if e == MapError::WalkFailed {
                    let (i, q) = choose|i: int, q: int| 0 <= i < NUMBER_OF_PROCESS && 0 <= q < KSTACK_PAGES
                        && (#[trigger] pte_view(m7.contents(), kpt, stack_page(i, q))) is None;
                    assert(pte_view(m0.contents(), kpt, stack_page(i, q)) is None);
                }
            }
            return Err(e);
        },
        Ok(()) => {},
    }
    proof {
        assert forall|i: int, q: int| 0 <= i < NUMBER_OF_PROCESS && 0 <= q < KSTACK_PAGES
            implies #[trigger] pte_view(mem.contents(), page_table, stack_page(i, q)) == stack_leaf(m0.contents(), kpt, stack_page(i, q))
                && stack_leaf(m0.contents(), kpt, stack_page(i, q)) is Some by {
            assert(stack_leaf(m7.contents(), kpt, stack_page(i, q)) == stack_leaf(m0.contents(), kpt, stack_page(i, q)));
            lemma_stack_vpn(i, q);
            lemma_in_kstacks(stack_page(i, q));
        }
    }
    Ok(page_table)
}

} // verus!
