use vstd::prelude::*;
use vstd::string::StringSliceAdditionalSpecFns;
use crate::memory::{PAGE_SIZE, PhysMem, frame_base, phys_byte, byte_of, round_up_spec, RAM_END};
use crate::elf::{ELF64_HEADER_SIZE, ELF64_PHDR_SIZE, PT_LOAD, le16, le32, le64, header_of, phdr_of, get_elf_header, get_program_header};
use crate::pt_spec::{pte_view, pt_wf, pt_disjoint, blocked, tree_kept, lemma_same_page, lemma_data_others, others_kept, lemma_others_refl, lemma_others_trans};
use crate::process::Process;
use crate::virtual_memory::{
    ADDR_MASK, MapError, kvm_translate, page_at, pfx, vpn, lemma_vpn_div, lemma_addr_bits, same_mem,
    u_vm_alloc, in_pages, leaf_entry, mem_step, fresh_page, zero_page, distinct_pages, grow_pages,
    lemma_leaf_addr, lemma_round_aligned, lemma_mem_step_trans, proc_page_table, proc_map, in_kstacks,
    stack_page, stack_leaf, all_others_kept, NUMBER_OF_PROCESS, KSTACK_PAGES, KERNEL_PHYS_BASE,
    USER_STACK_START, USER_STACK_END, AF, ATTRIDX0, AP_EL1_RX_EL0_RX, AP_EL1_RW_EL0_RW, TRAMPOLINE,
    TRAP_FRAME, UART0_BASE, GICD_BASE, GICC_BASE,
};

verus! {

/// Why `k_exec` failed.
#[derive(Debug, Clone, Copy, PartialEq, Eq, Structural)]
pub enum ExecError {
    MappingFailed,
    InvalidFormat,
    ProgramNotFound,
}

/// Where each user program was linked, as recorded in the kernel image.
pub struct UserBinaryPaths {
    pub help: &'static str,
    pub sh: &'static str,
}

/// The paths the kernel records for its user programs.
pub fn user_binary_paths() -> (r: UserBinaryPaths)
    ensures
        r.help@ == help_path(),
        r.sh@ == sh_path(),
{
    UserBinaryPaths {
        help: "../../../target/aarch64-unknown-none/debug/help",
        sh: "../../../target/aarch64-unknown-none/debug/sh",
    }
}

/// The recorded path of the `help` program.
pub open spec fn help_path() -> Seq<char> {
    "../../../target/aarch64-unknown-none/debug/help"@
}

/// The recorded path of the `sh` program.
pub open spec fn sh_path() -> Seq<char> {
    "../../../target/aarch64-unknown-none/debug/sh"@
}

/// The ELF images of the user programs the kernel carries.
pub struct UserBinaries {
    pub sh: Vec<u8>,
    pub help: Vec<u8>,
}

/// The UTF-8 bytes of the name `sh`.
pub open spec fn sh_name() -> Seq<u8> {
    seq![0x73u8, 0x68u8]
}

/// The UTF-8 bytes of the name `help`.
pub open spec fn help_name() -> Seq<u8> {
    seq![0x68u8, 0x65u8, 0x6Cu8, 0x70u8]
}

/// Whether `name` names one of the user programs.
pub open spec fn known_program(name: &str) -> bool {
    name.spec_bytes() == sh_name() || name.spec_bytes() == help_name()
}

/// The image of the program `name` names.
pub open spec fn program_image(bins: &UserBinaries, name: &str) -> Seq<u8> {
    if name.spec_bytes() == sh_name() { bins.sh@ } else { bins.help@ }
}

/// The recorded path and the image of the user program `name`, or `None`
/// when there is no such program.
fn resolve_user_binary<'a>(bins: &'a UserBinaries, name: &str) -> (r: Option<(&'static str, &'a [u8])>)
    ensures
        r is None <==> !known_program(name),
        r matches Some((p, b)) ==> b@ == program_image(bins, name)
            && p@ == if name.spec_bytes() == sh_name() { sh_path() } else { help_path() },
{
    let n = name.as_bytes();
    let paths = user_binary_paths();
    if n.len() == 2 && n[0] == 0x73 && n[1] == 0x68 {
        assert(n@ =~= sh_name());
        Some((paths.sh, bins.sh.as_slice()))
    } else if n.len() == 4 && n[0] == 0x68 && n[1] == 0x65 && n[2] == 0x6C && n[3] == 0x70 {
        assert(n@ =~= help_name());
        Some((paths.help, bins.help.as_slice()))
    } else {
        None
    }
}

/// Addresses below this one are lower-half canonical, where user programs live.
pub const LOWER_HALF_END: u64 = 0x1_0000_0000_0000;

/// Number of program headers.
pub open spec fn phnum(b: Seq<u8>) -> int {
    le16(b, 56)
}

/// File offset of program header `i`.
pub open spec fn ph_off(b: Seq<u8>, i: int) -> int {
    le64(b, 32) + i * le16(b, 54)
}

/// Program header `i` lies inside the file.
pub open spec fn ph_present(b: Seq<u8>, i: int) -> bool {
    ph_off(b, i) + ELF64_PHDR_SIZE <= b.len()
}

/// Segment `i` is loadable.
pub open spec fn is_load(b: Seq<u8>, i: int) -> bool {
    le32(b, ph_off(b, i)) == PT_LOAD
}

/// File offset of segment `i`'s bytes.
pub open spec fn seg_file_off(b: Seq<u8>, i: int) -> int {
    le64(b, ph_off(b, i) + 8)
}

/// Virtual address of segment `i`.
pub open spec fn seg_vaddr(b: Seq<u8>, i: int) -> int {
    le64(b, ph_off(b, i) + 16)
}

/// Bytes of segment `i` in the file.
pub open spec fn seg_filesz(b: Seq<u8>, i: int) -> int {
    le64(b, ph_off(b, i) + 32)
}

/// Bytes of segment `i` in memory.
pub open spec fn seg_memsz(b: Seq<u8>, i: int) -> int {
    le64(b, ph_off(b, i) + 40)
}

/// Pages segment `i` occupies in memory.
pub open spec fn seg_pages(b: Seq<u8>, i: int) -> int {
    (seg_memsz(b, i) + 4095) / 4096
}

/// Program header `i` is present and, if its segment is loadable, the
/// segment's bytes lie inside the file and its pages are page-aligned and
/// lower-half canonical.
pub open spec fn seg_ok(b: Seq<u8>, i: int) -> bool {
    &&& ph_present(b, i)
    &&& is_load(b, i) ==> {
        &&& seg_file_off(b, i) + seg_filesz(b, i) <= b.len()
        &&& seg_vaddr(b, i) % 4096 == 0
        &&& seg_vaddr(b, i) + seg_pages(b, i) * 4096 <= LOWER_HALF_END
    }
}

/// The file is long enough for an ELF64 header and starts with the magic.
pub open spec fn header_ok(b: Seq<u8>) -> bool {
    &&& b.len() >= ELF64_HEADER_SIZE
    &&& b[0] == 0x7F && b[1] == 0x45 && b[2] == 0x4C && b[3] == 0x46
}

/// An ELF image `k_exec` can load: a valid header and program headers.
pub open spec fn elf_ok(b: Seq<u8>) -> bool {
    &&& header_ok(b)
    &&& forall|i: int| 0 <= i < phnum(b) ==> #[trigger] seg_ok(b, i)
}

/// The page of `v` is one of loadable segment `i`'s pages.
pub open spec fn seg_page(b: Seq<u8>, i: int, v: u64) -> bool {
    is_load(b, i) && in_pages(seg_vaddr(b, i) as u64, seg_pages(b, i), v)
}

/// The page of `v` belongs to one of the first `n` segments.
pub open spec fn loaded_upto(b: Seq<u8>, n: int, v: u64) -> bool
    decreases n,
{
    if n <= 0 { false } else { loaded_upto(b, n - 1, v) || seg_page(b, n - 1, v) }
}

/// The byte a loaded image holds at offset `j` of segment `i`: file bytes,
/// then zeros.
pub open spec fn seg_byte(b: Seq<u8>, i: int, j: int) -> u8 {
    if j < seg_filesz(b, i) { b[seg_file_off(b, i) + j] } else { 0 }
}

/// The byte that `va` reads through the tree at `root`, if it is mapped.
pub open spec fn user_byte(m: Map<u64, Seq<u64>>, root: u64, va: u64) -> Option<u8> {
    match pte_view(m, root, va) {
        Some(e) => Some(phys_byte(m, ((e & ADDR_MASK) + va % 4096) as u64)),
        None => None,
    }
}

/// The frame the page at `va` maps to.
pub open spec fn page_frame(m: Map<u64, Seq<u64>>, root: u64, va: u64) -> u64 {
    pte_view(m, root, va).unwrap() & ADDR_MASK
}

/// The page at `p` maps a frame that holds data, is no table and is not free.
pub open spec fn user_page_ok(mem: PhysMem, root: u64, p: u64) -> bool {
    &&& pte_view(mem.contents(), root, p) is Some
    &&& mem.contents().contains_key(page_frame(mem.contents(), root, p))
    &&& !mem.tables().contains(page_frame(mem.contents(), root, p))
    &&& !mem.free().contains(page_frame(mem.contents(), root, p))
}

/// Each of the `n` pages from `va` on maps its own frame, which holds data,
/// is no table and is not free.
pub open spec fn user_pages_ok(mem: PhysMem, root: u64, va: u64, n: int) -> bool {
    &&& forall|k: int| 0 <= k < n ==> #[trigger] user_page_ok(mem, root, page_at(va, k))
    &&& forall|k1: int, k2: int| 0 <= k1 < n && 0 <= k2 < n && k1 != k2
            ==> #[trigger] page_frame(mem.contents(), root, page_at(va, k1)) != #[trigger] page_frame(mem.contents(), root, page_at(va, k2))
}

proof fn lemma_page_offset(va: u64, j: int)
    requires
        va % 4096 == 0,
        0 <= j,
        va + j < 0x1_0000_0000_0000,
    ensures
        pfx(4, (va + j) as u64) == pfx(4, page_at(va, j / 4096)),
        ((va + j) as u64) % 4096 == j % 4096,
        page_at(va, j / 4096) % 4096 == 0,
{
    let x = (va + j) as u64;
    let p = page_at(va, j / 4096);
    let vi = va as int;
    assert(p == vi + (j / 4096) * 4096);
    assert((vi + j) / 4096 == (vi + (j / 4096) * 4096) / 4096 && (vi + j) % 4096 == j % 4096 && (vi + (j / 4096) * 4096) % 4096 == 0) by (nonlinear_arith)
        requires vi % 4096 == 0, j >= 0, vi >= 0;
    assert(p < 0x1_0000_0000_0000) by (nonlinear_arith)
        requires p == vi + (j / 4096) * 4096, vi + j < 0x1_0000_0000_0000, j >= 0;
    lemma_vpn_div(x);
    lemma_vpn_div(p);
}

proof fn lemma_load_byte(
    m0: PhysMem, before: PhysMem, after: PhysMem, root: u64, va_start: u64, n: int, i: int,
    f: u64, offset: int, chunk: int, bin: Seq<u8>, src_off: int, bin_len: int, j: int,
)
    requires
        0 <= j < n * 4096,
        0 <= i < n,
        va_start % 4096 == 0,
        va_start + n * 4096 <= 0x1_0000_0000_0000,
        0 <= src_off,
        src_off + bin_len <= bin.len(),
        offset == i * 4096,
        chunk == if offset < bin_len { if 4096 < bin_len - offset { 4096 } else { bin_len - offset } } else { 0 },
        user_pages_ok(m0, root, va_start, n),
        f == page_frame(m0.contents(), root, page_at(va_start, i)),
        forall|v: u64| #[trigger] pte_view(before.contents(), root, v) == pte_view(m0.contents(), root, v),
        forall|v: u64| #[trigger] pte_view(after.contents(), root, v) == pte_view(m0.contents(), root, v),
        forall|g: u64| g != f ==> #[trigger] after.contents()[g] == before.contents()[g],
        forall|q: u64| frame_base(q) == f ==> #[trigger] phys_byte(after.contents(), q)
            == if f <= q < f + chunk { bin[src_off + offset + q - f] } else { phys_byte(before.contents(), q) },
        forall|jj: int| 0 <= jj < n * 4096 ==> #[trigger] user_byte(before.contents(), root, (va_start + jj) as u64)
            == if jj < i * 4096 && jj < bin_len { Some(bin[src_off + jj]) } else { user_byte(m0.contents(), root, (va_start + jj) as u64) },
    ensures
        user_byte(after.contents(), root, (va_start + j) as u64)
            == if j < (i + 1) * 4096 && j < bin_len { Some(bin[src_off + j]) } else { user_byte(m0.contents(), root, (va_start + j) as u64) },
{
    let x = (va_start + j) as u64;
    let kp = j / 4096;
    lemma_page_offset(va_start, j);
    let p = page_at(va_start, kp);
    lemma_same_page(m0.contents(), root, x, p);
    assert(0 <= kp < n) by (nonlinear_arith) requires 0 <= j < n * 4096, kp == j / 4096;
    assert(user_page_ok(m0, root, p));
    let fk = page_frame(m0.contents(), root, p);
    let e = pte_view(m0.contents(), root, p).unwrap();
    lemma_addr_bits(e);
    let pa = (fk + j % 4096) as u64;
    assert(frame_base(pa) == fk);
    assert(user_byte(after.contents(), root, x) == Some(phys_byte(after.contents(), pa)));
    assert(user_byte(before.contents(), root, x) == Some(phys_byte(before.contents(), pa)));
    assert(user_byte(m0.contents(), root, x) == Some(phys_byte(m0.contents(), pa)));
    assert(user_byte(before.contents(), root, x) == if j < i * 4096 && j < bin_len { Some(bin[src_off + j]) } else { user_byte(m0.contents(), root, x) });
    if kp == i {
        assert(fk == f);
        assert(j == i * 4096 + j % 4096) by (nonlinear_arith) requires kp == j / 4096, kp == i, j >= 0;
        assert(j >= i * 4096 && j < (i + 1) * 4096);
    } else {
        assert(fk != f);
        assert(phys_byte(after.contents(), pa) == phys_byte(before.contents(), pa));
        assert(j < i * 4096 <==> kp < i) by (nonlinear_arith) requires kp == j / 4096, j >= 0;
        assert(j < (i + 1) * 4096 <==> kp < i + 1) by (nonlinear_arith) requires kp == j / 4096, j >= 0;
    }
}

/// Copies the `bin_len` bytes of `bin` from `src_off` on into the
/// `num_pages` pages from `va_start` on, through the tree at `page_table`;
/// bytes that do not fit in those pages are left out.
fn load_seg(mem: &mut PhysMem, page_table: u64, va_start: u64, bin: &[u8], src_off: usize, bin_len: usize, num_pages: u64) -> (r: Result<(), ExecError>)
    requires
        old(mem).wf(),
        pt_wf(old(mem).contents(), old(mem).tables(), page_table),
        va_start % 4096 == 0,
        va_start + num_pages * 4096 <= 0x1_0000_0000_0000,
        src_off + bin_len <= bin@.len(),
        user_pages_ok(*old(mem), page_table, va_start, num_pages as int),
    ensures
        r is Ok,
        final(mem).wf(),
        final(mem).free() == old(mem).free(),
        final(mem).tables() == old(mem).tables(),
        final(mem).kernel_end() == old(mem).kernel_end(),
        final(mem).contents().dom() == old(mem).contents().dom(),
        forall|g: u64| (forall|k: int| 0 <= k < num_pages ==> g != #[trigger] page_frame(old(mem).contents(), page_table, page_at(va_start, k)))
            ==> #[trigger] final(mem).contents()[g] == old(mem).contents()[g],
        forall|v: u64| #[trigger] pte_view(final(mem).contents(), page_table, v) == pte_view(old(mem).contents(), page_table, v),
        others_kept(old(mem).contents(), old(mem).tables(), final(mem).contents(), final(mem).tables(), page_table),
        pt_wf(final(mem).contents(), final(mem).tables(), page_table),
        forall|v: u64| #[trigger] blocked(final(mem).contents(), page_table, v) == blocked(old(mem).contents(), page_table, v),
        user_pages_ok(*final(mem), page_table, va_start, num_pages as int),
        forall|j: int| 0 <= j < num_pages * 4096 ==> #[trigger] user_byte(final(mem).contents(), page_table, (va_start + j) as u64)
            == if j < bin_len { Some(bin@[src_off + j]) } else { user_byte(old(mem).contents(), page_table, (va_start + j) as u64) },
{
    let ghost m0 = *mem;
    let ghost n = num_pages as int;
    let bin_total = bin.len();
    proof {
        lemma_others_refl(mem.contents(), mem.tables(), page_table);
    }
    for i in 0..num_pages
        invariant
            m0 == *old(mem),
            n == num_pages,
            mem.wf(),
            pt_wf(m0.contents(), m0.tables(), page_table),
            va_start % 4096 == 0,
            va_start + num_pages * 4096 <= 0x1_0000_0000_0000,
            src_off + bin_len <= bin@.len(),
            bin@.len() == bin_total,
            user_pages_ok(m0, page_table, va_start, n),
            mem.free() == m0.free(),
            mem.tables() == m0.tables(),
            mem.kernel_end() == m0.kernel_end(),
            mem.contents().dom() == m0.contents().dom(),
            forall|g: u64| (forall|k: int| 0 <= k < i ==> g != #[trigger] page_frame(m0.contents(), page_table, page_at(va_start, k)))
                ==> #[trigger] mem.contents()[g] == m0.contents()[g],
            pt_wf(mem.contents(), mem.tables(), page_table),
            forall|v: u64| #[trigger] pte_view(mem.contents(), page_table, v) == pte_view(m0.contents(), page_table, v),
            forall|v: u64| #[trigger] blocked(mem.contents(), page_table, v) == blocked(m0.contents(), page_table, v),
            others_kept(m0.contents(), m0.tables(), mem.contents(), mem.tables(), page_table),
            forall|j: int| 0 <= j < n * 4096 ==> #[trigger] user_byte(mem.contents(), page_table, (va_start + j) as u64)
                == if j < i * 4096 && j < bin_len { Some(bin@[src_off + j]) } else { user_byte(m0.contents(), page_table, (va_start + j) as u64) },
    {
        let offset: u64 = i * PAGE_SIZE as u64;
        let va = va_start + offset;
        let chunk_size: usize = if offset < bin_len as u64 {
            let rest = bin_len - offset as usize;
            if PAGE_SIZE < rest { PAGE_SIZE } else { rest }
        } else {
            0
        };
        proof {
            assert(va == page_at(va_start, i as int));
            lemma_vpn_div(va);
            assert(user_page_ok(m0, page_table, page_at(va_start, i as int)));
            assert(pte_view(m0.contents(), page_table, va) is Some);
            assert(pte_view(mem.contents(), page_table, va) is Some);
        }
        let ghost before = *mem;
        let t = kvm_translate(mem, page_table, va);
        let phys_pt = match t {
            Err(_) => {
                return Err(ExecError::MappingFailed);
            },
            Ok(x) => x,
        };
        let ghost f = page_frame(m0.contents(), page_table, va);
        proof {
            assert(same_mem(before, *mem));
            let e = pte_view(m0.contents(), page_table, va).unwrap();
            lemma_addr_bits(e);
            assert(phys_pt == f);
            assert(va % 4096 == 0) by (nonlinear_arith) requires va == va_start + i * 4096, va_start % 4096 == 0;
            assert(frame_base(phys_pt) == phys_pt);
            assert(mem.contents()[f] == m0.contents()[f] || true);
        }
        if chunk_size > 0 {
            let ghost s1 = *mem;
            mem.copy_in(phys_pt, bin, src_off + offset as usize, chunk_size);
            proof {
                assert(!m0.tables().contains(f));
                lemma_data_others(s1.contents(), mem.contents(), s1.tables(), mem.tables(), f, page_table);
                lemma_others_trans(m0.contents(), m0.tables(), s1.contents(), s1.tables(), mem.contents(), mem.tables(), page_table);
            }
        }
        proof {
            assert forall|g: u64| (forall|k: int| 0 <= k < i + 1 ==> g != #[trigger] page_frame(m0.contents(), page_table, page_at(va_start, k)))
                implies #[trigger] mem.contents()[g] == m0.contents()[g] by {
                assert(g != page_frame(m0.contents(), page_table, page_at(va_start, i as int)));
                assert forall|k: int| 0 <= k < i implies g != #[trigger] page_frame(m0.contents(), page_table, page_at(va_start, k)) by {
                    assert(0 <= k < i + 1);
                }
            }
            assert forall|j: int| 0 <= j < n * 4096 implies #[trigger] user_byte(mem.contents(), page_table, (va_start + j) as u64)
                == if j < (i + 1) * 4096 && j < bin_len { Some(bin@[src_off + j]) } else { user_byte(m0.contents(), page_table, (va_start + j) as u64) } by {
                lemma_load_byte(m0, before, *mem, page_table, va_start, n, i as int, f, offset as int, chunk_size as int, bin@, src_off as int, bin_len as int, j);
            }
        }
    }
    proof {
        assert forall|k: int| 0 <= k < n implies #[trigger] user_page_ok(*mem, page_table, page_at(va_start, k)) by {
            let pk = page_at(va_start, k);
            assert(user_page_ok(m0, page_table, pk));
            assert(pte_view(mem.contents(), page_table, pk) == pte_view(m0.contents(), page_table, pk));
        }
        assert forall|k1: int, k2: int| 0 <= k1 < n && 0 <= k2 < n && k1 != k2
            implies #[trigger] page_frame(mem.contents(), page_table, page_at(va_start, k1)) != #[trigger] page_frame(mem.contents(), page_table, page_at(va_start, k2)) by {
            assert(page_frame(mem.contents(), page_table, page_at(va_start, k1)) == page_frame(m0.contents(), page_table, page_at(va_start, k1)));
            assert(page_frame(mem.contents(), page_table, page_at(va_start, k2)) == page_frame(m0.contents(), page_table, page_at(va_start, k2)));
        }
        assert(user_pages_ok(*mem, page_table, va_start, n));
    }
    Ok(())
}


/// The page of `v` maps, with attributes `perm`, a frame that was free in
/// `old` and now holds data and is no table.
pub open spec fn maps_fresh(old: PhysMem, new: PhysMem, root: u64, perm: u64, v: u64) -> bool {
    pte_view(new.contents(), root, v) matches Some(e) && exists|f: u64| {
        &&& e == #[trigger] leaf_entry(f, perm)
        &&& old.free().contains(f)
        &&& !new.tables().contains(f)
        &&& new.contents().contains_key(f)
    }
}

/// What every call that grows the tree at `root` by the `n` pages from `va`
/// keeps: memory only changes by allocation and in fresh frames, no walk is
/// blocked, and no page outside the range changes.
pub open spec fn grow_base(old: PhysMem, new: PhysMem, root: u64, va: u64, n: int) -> bool {
    &&& new.wf()
    &&& pt_wf(new.contents(), new.tables(), root)
    &&& mem_step(old, new)
    &&& others_kept(old.contents(), old.tables(), new.contents(), new.tables(), root)
    &&& forall|v: u64| !#[trigger] blocked(new.contents(), root, v)
    &&& forall|v: u64| !in_pages(va, n, v) ==> #[trigger] pte_view(new.contents(), root, v) == pte_view(old.contents(), root, v)
}

/// How a call that grows the tree at `root` by the `n` pages from `va` can
/// fail: the free list ran out, or one of the pages was mapped already.
pub open spec fn grow_failed(old: PhysMem, new: PhysMem, root: u64, va: u64, n: int) -> bool {
    ||| new.free().len() == 0
    ||| exists|v: u64| in_pages(va, n, v) && (#[trigger] pte_view(old.contents(), root, v)) is Some
}

proof fn lemma_zero_byte(m: Map<u64, Seq<u64>>, pa: u64)
    requires
        m.contains_key(frame_base(pa)),
        m[frame_base(pa)] == zero_page(),
    ensures
        phys_byte(m, pa) == 0,
{
    assert(0 <= (pa % 4096) / 8 < 512);
    assert(m[frame_base(pa)][((pa % 4096) / 8) as int] == 0u64);
    let k = pa % 8;
    assert(((0u64 >> (8 * k)) & 0xff) == 0) by (bit_vector);
}

/// Maps the `n` pages from `va` on, in the tree at `root`, each to a fresh
/// zero-filled frame with attributes `perm`.
fn alloc_fresh(mem: &mut PhysMem, root: u64, va: u64, end: u64, perm: u64, Ghost(n): Ghost<int>) -> (r: Result<(), ExecError>)
    requires
        old(mem).wf(),
        pt_wf(old(mem).contents(), old(mem).tables(), root),
        forall|v: u64| !#[trigger] blocked(old(mem).contents(), root, v),
        va % 4096 == 0,
        va <= end,
        n == (end - va + 4095) / 4096,
        va + n * 4096 <= 0x1_0000_0000_0000,
        perm & ADDR_MASK == 0,
    ensures
        grow_base(*old(mem), *final(mem), root, va, n),
        r is Err ==> r == Err::<(), ExecError>(ExecError::MappingFailed) && grow_failed(*old(mem), *final(mem), root, va, n),
        r is Ok ==> {
            &&& forall|v: u64| in_pages(va, n, v) ==> (#[trigger] pte_view(old(mem).contents(), root, v)) is None
            &&& forall|v: u64| in_pages(va, n, v) ==> #[trigger] maps_fresh(*old(mem), *final(mem), root, perm, v)
            &&& distinct_pages(final(mem).contents(), root, va, n)
            &&& user_pages_ok(*final(mem), root, va, n)
            &&& forall|j: int| 0 <= j < n * 4096 ==> #[trigger] user_byte(final(mem).contents(), root, (va + j) as u64) == Some(0u8)
        },
{
    proof {
        lemma_round_aligned(va);
        assert(grow_pages(va, end) == n);
    }
    let res = u_vm_alloc(mem, root, va, end, perm);
    match res {
        Err(e) => {
            proof {
                if e == MapError::WalkFailed {
                    let v = choose|v: u64| in_pages(va, n, v) && #[trigger] blocked(old(mem).contents(), root, v);
                }
            }
            return Err(ExecError::MappingFailed);
        },
        Ok(_) => {},
    }
    proof {
        let m0 = *old(mem);
        let m = *mem;
        m.lemma_wf();
        m.lemma_wf_spec();
        m0.lemma_wf();
        assert forall|v: u64| in_pages(va, n, v) implies #[trigger] maps_fresh(m0, m, root, perm, v) by {
            assert(fresh_page(m0, m, root, perm, v));
            let f = choose|f: u64| {
                &&& pte_view(m.contents(), root, v).unwrap() == #[trigger] leaf_entry(f, perm)
                &&& m0.free().contains(f)
                &&& !m.tables().contains(f)
                &&& m.contents().contains_key(f)
                &&& m.contents()[f] == zero_page()
            };
            assert(pte_view(m.contents(), root, v).unwrap() == leaf_entry(f, perm));
        }
        assert forall|k: int| 0 <= k < n implies #[trigger] user_page_ok(m, root, page_at(va, k)) by {
            let p = page_at(va, k);
            lemma_vpn_div(va);
            lemma_vpn_div(p);
            assert(p == va + k * 4096);
            assert(p / 4096 == va / 4096 + k) by (nonlinear_arith) requires p == va + k * 4096, va % 4096 == 0, k >= 0;
            assert(in_pages(va, n, p));
            assert(fresh_page(m0, m, root, perm, p));
            let f = choose|f: u64| {
                &&& pte_view(m.contents(), root, p).unwrap() == #[trigger] leaf_entry(f, perm)
                &&& m0.free().contains(f)
                &&& !m.tables().contains(f)
                &&& m.contents().contains_key(f)
                &&& m.contents()[f] == zero_page()
            };
            lemma_leaf_addr(f, perm);
            assert(page_frame(m.contents(), root, p) == f);
        }
        assert forall|j: int| 0 <= j < n * 4096 implies #[trigger] user_byte(m.contents(), root, (va + j) as u64) == Some(0u8) by {
            let x = (va + j) as u64;
            lemma_page_offset(va, j);
            let kp = j / 4096;
            assert(0 <= kp < n) by (nonlinear_arith) requires 0 <= j < n * 4096, kp == j / 4096;
            let p = page_at(va, kp);
            lemma_same_page(m.contents(), root, x, p);
            lemma_vpn_div(va);
            lemma_vpn_div(p);
            assert(p / 4096 == va / 4096 + kp) by (nonlinear_arith) requires p == va + kp * 4096, va % 4096 == 0, kp >= 0;
            assert(in_pages(va, n, x));
            assert(fresh_page(m0, m, root, perm, x));
            let f = choose|f: u64| {
                &&& pte_view(m.contents(), root, x).unwrap() == #[trigger] leaf_entry(f, perm)
                &&& m0.free().contains(f)
                &&& !m.tables().contains(f)
                &&& m.contents().contains_key(f)
                &&& m.contents()[f] == zero_page()
            };
            lemma_leaf_addr(f, perm);
            let pa = (f + x % 4096) as u64;
            assert(frame_base(pa) == f);
            lemma_zero_byte(m.contents(), pa);
        }
        assert forall|k1: int, k2: int| 0 <= k1 < n && 0 <= k2 < n && k1 != k2
            implies #[trigger] page_frame(m.contents(), root, page_at(va, k1)) != #[trigger] page_frame(m.contents(), root, page_at(va, k2)) by {
            let p1 = page_at(va, k1);
            let p2 = page_at(va, k2);
            lemma_vpn_div(va);
            lemma_vpn_div(p1);
            lemma_vpn_div(p2);
            assert(p1 / 4096 == va / 4096 + k1) by (nonlinear_arith) requires p1 == va + k1 * 4096, va % 4096 == 0, k1 >= 0;
            assert(p2 / 4096 == va / 4096 + k2) by (nonlinear_arith) requires p2 == va + k2 * 4096, va % 4096 == 0, k2 >= 0;
            assert(fresh_page(m0, m, root, perm, p1));
            assert(fresh_page(m0, m, root, perm, p2));
            let f1 = choose|f: u64| {
                &&& pte_view(m.contents(), root, p1).unwrap() == #[trigger] leaf_entry(f, perm)
                &&& m0.free().contains(f)
                &&& !m.tables().contains(f)
                &&& m.contents().contains_key(f)
                &&& m.contents()[f] == zero_page()
            };
            let f2 = choose|f: u64| {
                &&& pte_view(m.contents(), root, p2).unwrap() == #[trigger] leaf_entry(f, perm)
                &&& m0.free().contains(f)
                &&& !m.tables().contains(f)
                &&& m.contents().contains_key(f)
                &&& m.contents()[f] == zero_page()
            };
            lemma_leaf_addr(f1, perm);
            lemma_leaf_addr(f2, perm);
            assert(pte_view(m.contents(), root, p1) != pte_view(m.contents(), root, p2));
        }
        assert forall|v: u64| in_pages(va, n, v) implies (#[trigger] pte_view(m0.contents(), root, v)) is None by {
            assert(fresh_page(m0, m, root, perm, v));
        }
    }
    Ok(())
}

/// Maps the `n` pages from `va` on to fresh zero-filled frames with
/// attributes `perm`, then copies the `len` bytes of `bin` from `off` into
/// them; bytes past the last page are left out.
fn load_segment(
    mem: &mut PhysMem, root: u64, bin: &[u8], off: usize, len: usize, va: u64, end: u64, perm: u64, Ghost(n): Ghost<int>,
) -> (r: Result<(), ExecError>)
    requires
        old(mem).wf(),
        pt_wf(old(mem).contents(), old(mem).tables(), root),
        forall|v: u64| !#[trigger] blocked(old(mem).contents(), root, v),
        va % 4096 == 0,
        va <= end,
        n == (end - va + 4095) / 4096,
        va + n * 4096 <= 0x1_0000_0000_0000,
        off + len <= bin@.len(),
        perm & ADDR_MASK == 0,
    ensures
        grow_base(*old(mem), *final(mem), root, va, n),
        r is Err ==> r == Err::<(), ExecError>(ExecError::MappingFailed) && grow_failed(*old(mem), *final(mem), root, va, n),
        r is Ok ==> {
            &&& forall|v: u64| in_pages(va, n, v) ==> (#[trigger] pte_view(old(mem).contents(), root, v)) is None
            &&& forall|v: u64| in_pages(va, n, v) ==> #[trigger] maps_fresh(*old(mem), *final(mem), root, perm, v)
            &&& forall|j: int| 0 <= j < n * 4096 ==> #[trigger] user_byte(final(mem).contents(), root, (va + j) as u64)
                    == Some(if j < len { bin@[off + j] } else { 0u8 })
        },
{
    let ghost m0 = *mem;
    alloc_fresh(mem, root, va, end, perm, Ghost(n))?;
    let ghost m1 = *mem;
    proof {
        assert(end - va <= n * 4096) by (nonlinear_arith) requires n == (end - va + 4095) / 4096, end >= va;
    }
    let num_pages: u64 = (end - va + 4095) / 4096;
    let res = load_seg(mem, root, va, bin, off, len, num_pages);
    proof {
        m1.lemma_wf();
        m1.lemma_wf_spec();
        m0.lemma_wf();
        lemma_others_trans(m0.contents(), m0.tables(), m1.contents(), m1.tables(), mem.contents(), mem.tables(), root);
        assert forall|g: u64| !mem.tables().contains(g) && !m0.free().contains(g) implies
            #[trigger] mem.contents()[g] == m0.contents()[g] by {
            assert forall|k: int| 0 <= k < num_pages implies g != #[trigger] page_frame(m1.contents(), root, page_at(va, k)) by {
                let p = page_at(va, k);
                lemma_vpn_div(va);
                lemma_vpn_div(p);
                assert(p / 4096 == va / 4096 + k) by (nonlinear_arith) requires p == va + k * 4096, va % 4096 == 0, k >= 0;
                assert(in_pages(va, n, p));
                assert(maps_fresh(m0, m1, root, perm, p));
                let f = choose|f: u64| {
                    &&& pte_view(m1.contents(), root, p).unwrap() == #[trigger] leaf_entry(f, perm)
                    &&& m0.free().contains(f)
                    &&& !m1.tables().contains(f)
                    &&& m1.contents().contains_key(f)
                };
                let j = choose|j: int| 0 <= j < m0.free().len() && m0.free()[j] == f;
                lemma_leaf_addr(f, perm);
            }
        }
        assert forall|g: u64| !mem.tables().contains(g) && !m0.free().contains(g) implies
            (#[trigger] mem.contents().contains_key(g)) == m0.contents().contains_key(g) by {
            assert(mem.contents().dom().contains(g) == m1.contents().dom().contains(g));
        }
        assert(mem_step(m0, *mem)) by {
            assert(mem.free() =~= m0.free().subrange(0, mem.free().len() as int));
            assert(mem_step(m0, m1));
            assert forall|f: u64| #[trigger] mem.tables().contains(f) implies m0.tables().contains(f) || m0.free().contains(f) by {
                assert(m1.tables().contains(f));
            }
        }
        assert forall|v: u64| in_pages(va, n, v) implies #[trigger] maps_fresh(m0, *mem, root, perm, v) by {
            assert(maps_fresh(m0, m1, root, perm, v));
            let f = choose|f: u64| {
                &&& pte_view(m1.contents(), root, v).unwrap() == #[trigger] leaf_entry(f, perm)
                &&& m0.free().contains(f)
                &&& !m1.tables().contains(f)
                &&& m1.contents().contains_key(f)
            };
            assert(mem.contents().contains_key(f));
        }
        assert forall|j: int| 0 <= j < n * 4096 implies #[trigger] user_byte(mem.contents(), root, (va + j) as u64)
            == Some(if j < len { bin@[off + j] } else { 0u8 }) by {
            assert(user_byte(m1.contents(), root, (va + j) as u64) == Some(0u8));
        }
    }
    res
}

/// Where the kernel's own tree and the linker's symbols put things.
#[derive(Clone, Copy)]
pub struct KernelLayout {
    /// Root of the kernel's translation tables.
    pub kernel_page_table: u64,
    /// First address after the kernel text (the linker's `etext`).
    pub etext: u64,
    /// Physical address of the trampoline code (the linker's `_trampoline`).
    pub trampoline: u64,
}

/// The page-aligned end of the kernel text.
pub open spec fn text_end(l: KernelLayout) -> u64 {
    round_up_spec(l.etext as int) as u64
}

/// What the kernel's layout always satisfies.
pub open spec fn layout_valid(mem: PhysMem, l: KernelLayout) -> bool {
    &&& pt_wf(mem.contents(), mem.tables(), l.kernel_page_table)
    &&& l.etext + 4096 <= u64::MAX
    &&& KERNEL_PHYS_BASE <= text_end(l) <= RAM_END
    &&& l.trampoline % 4096 == 0 ==> l.trampoline + 4096 <= u64::MAX
}

/// A new process's tree can be built from this layout, free frames aside.
pub open spec fn layout_ok(mem: PhysMem, l: KernelLayout) -> bool {
    &&& text_end(l) != KERNEL_PHYS_BASE
    &&& text_end(l) != RAM_END
    &&& l.trampoline % 4096 == 0
    &&& forall|i: int, q: int| 0 <= i < NUMBER_OF_PROCESS && 0 <= q < KSTACK_PAGES
            ==> (#[trigger] pte_view(mem.contents(), l.kernel_page_table, stack_page(i, q))) is Some
}

/// The loadable segments of `b` neither overlap one another nor any page a
/// new process's tree maps for the kernel, nor the user stack page.
pub open spec fn segments_fit(b: Seq<u8>, l: KernelLayout, tf: u64) -> bool {
    &&& forall|i: int, v: u64| 0 <= i < phnum(b) && #[trigger] seg_page(b, i, v) ==> {
            &&& proc_map(text_end(l), l.trampoline, tf, v) is None
            &&& !in_kstacks(v)
            &&& !in_pages(USER_STACK_START, 1, v)
        }
    &&& forall|i: int, j: int, v: u64| 0 <= i < j < phnum(b) && #[trigger] seg_page(b, i, v) ==> !#[trigger] seg_page(b, j, v)
}

/// Attributes of a program page: read and execute at EL1 and EL0.
pub open spec fn ucode_perm() -> u64 {
    AF | ATTRIDX0 | AP_EL1_RX_EL0_RX
}

/// Attributes of the user stack page: read and write at EL1 and EL0.
pub open spec fn ustack_perm() -> u64 {
    AF | ATTRIDX0 | AP_EL1_RW_EL0_RW
}

/// `new` differs from `old` by allocation, in frames that were free, and in
/// the frame at `tf`.
pub open spec fn mem_step_except(old: PhysMem, new: PhysMem, tf: u64) -> bool {
    &&& new.kernel_end() == old.kernel_end()
    &&& new.free().len() <= old.free().len()
    &&& new.free() == old.free().subrange(0, new.free().len() as int)
    &&& old.tables().subset_of(new.tables())
    &&& forall|f: u64| #[trigger] new.tables().contains(f) ==> old.tables().contains(f) || old.free().contains(f)
    &&& forall|f: u64| !new.tables().contains(f) && !old.free().contains(f) && f != tf
            ==> (#[trigger] new.contents().contains_key(f)) == old.contents().contains_key(f)
    &&& forall|f: u64| !new.tables().contains(f) && !old.free().contains(f) && f != tf
            ==> #[trigger] new.contents()[f] == old.contents()[f]
}

/// The user image `k_exec` builds from `b` in the tree at `root`: each
/// loadable segment on fresh frames holding its file bytes then zeros, a
/// fresh zeroed stack page, and what every process's tree maps for the
/// kernel.
pub open spec fn exec_image(old: PhysMem, new: PhysMem, l: KernelLayout, b: Seq<u8>, tf: u64, root: u64) -> bool {
    &&& old.free().contains(root)
    &&& pt_wf(new.contents(), new.tables(), root)
    &&& forall|v: u64| !#[trigger] blocked(new.contents(), root, v)
    &&& forall|i: int, v: u64| 0 <= i < phnum(b) && #[trigger] seg_page(b, i, v) ==> maps_fresh(old, new, root, ucode_perm(), v)
    &&& forall|i: int, j: int| 0 <= i < phnum(b) && is_load(b, i) && 0 <= j < seg_pages(b, i) * 4096
            ==> #[trigger] user_byte(new.contents(), root, (seg_vaddr(b, i) + j) as u64) == Some(seg_byte(b, i, j))
    &&& forall|v: u64| in_pages(USER_STACK_START, 1, v) ==> #[trigger] maps_fresh(old, new, root, ustack_perm(), v)
    &&& forall|j: int| 0 <= j < 4096 ==> #[trigger] user_byte(new.contents(), root, (USER_STACK_START + j) as u64) == Some(0u8)
    &&& forall|v: u64| !loaded_upto(b, phnum(b), v) && !in_pages(USER_STACK_START, 1, v) && !in_kstacks(v)
            ==> #[trigger] pte_view(new.contents(), root, v) == proc_map(text_end(l), l.trampoline, tf, v)
    &&& forall|i: int, q: int| 0 <= i < NUMBER_OF_PROCESS && 0 <= q < KSTACK_PAGES
            ==> #[trigger] pte_view(new.contents(), root, stack_page(i, q)) == stack_leaf(old.contents(), l.kernel_page_table, stack_page(i, q))
}

proof fn lemma_loaded(b: Seq<u8>, n: int, v: u64)
    ensures
        loaded_upto(b, n, v) <==> exists|k: int| 0 <= k < n && #[trigger] seg_page(b, k, v),
    decreases n,
{
    if n > 0 {
        lemma_loaded(b, n - 1, v);
        if seg_page(b, n - 1, v) {
            assert(0 <= n - 1 < n && seg_page(b, n - 1, v));
        }
        if exists|k: int| 0 <= k < n && #[trigger] seg_page(b, k, v) {
            let k = choose|k: int| 0 <= k < n && #[trigger] seg_page(b, k, v);
            if k < n - 1 {
                assert(0 <= k < n - 1 && seg_page(b, k, v));
            }
        }
    }
}

proof fn lemma_user_stack_apart(l: KernelLayout, tf: u64, v: u64)
    requires
        in_pages(USER_STACK_START, 1, v),
        KERNEL_PHYS_BASE <= text_end(l) <= RAM_END,
    ensures
        proc_map(text_end(l), l.trampoline, tf, v) is None,
        !in_kstacks(v),
{
    lemma_vpn_div(USER_STACK_START);
    lemma_vpn_div(KERNEL_PHYS_BASE);
    lemma_vpn_div(text_end(l));
    lemma_vpn_div(TRAMPOLINE);
    lemma_vpn_div(TRAP_FRAME);
    lemma_vpn_div(UART0_BASE);
    lemma_vpn_div(GICD_BASE);
    lemma_vpn_div(GICC_BASE);
    if in_kstacks(v) {
        let (i, p) = choose|i: int, p: int| 0 <= i < NUMBER_OF_PROCESS && 0 <= p < KSTACK_PAGES && vpn(v) == #[trigger] vpn(stack_page(i, p));
        let sp = stack_page(i, p);
        assert(sp == 4096 * (0x7_FFFF_FFFF - 3 * (i + 1) + p));
        assert(sp < 0x1_0000_0000_0000);
        lemma_vpn_div(sp);
    }
}

proof fn lemma_user_byte_kept(a: Map<u64, Seq<u64>>, c: Map<u64, Seq<u64>>, root: u64, x: u64)
    requires
        pte_view(c, root, x) == pte_view(a, root, x),
        pte_view(a, root, x) is Some,
        c[pte_view(a, root, x).unwrap() & ADDR_MASK] == a[pte_view(a, root, x).unwrap() & ADDR_MASK],
    ensures
        user_byte(c, root, x) == user_byte(a, root, x),
{
    let e = pte_view(a, root, x).unwrap();
    lemma_addr_bits(e);
    let pa = ((e & ADDR_MASK) + x % 4096) as u64;
    assert(frame_base(pa) == e & ADDR_MASK);
}

/// The first `i` segments of `b` are in place in the tree at `root`: their
/// pages, unmapped in `m1`, now map fresh frames holding the segments'
/// bytes, and no other page changed.
#[verifier::opaque]
spec fn image_so_far(b: Seq<u8>, i: int, m1: PhysMem, mem: PhysMem, root: u64) -> bool {
    &&& forall|v: u64| !loaded_upto(b, i, v) ==> #[trigger] pte_view(mem.contents(), root, v) == pte_view(m1.contents(), root, v)
    &&& forall|v: u64| loaded_upto(b, i, v) ==> (#[trigger] pte_view(m1.contents(), root, v)) is None
            && maps_fresh(m1, mem, root, ucode_perm(), v)
    &&& forall|k: int, j: int| 0 <= k < i && is_load(b, k) && 0 <= j < seg_pages(b, k) * 4096
            ==> #[trigger] user_byte(mem.contents(), root, (seg_vaddr(b, k) + j) as u64) == Some(seg_byte(b, k, j))
    &&& forall|k: int| 0 <= k < i ==> #[trigger] seg_ok(b, k)
}

proof fn lemma_seg_page_of(b: Seq<u8>, k: int, j: int)
    requires
        seg_ok(b, k),
        is_load(b, k),
        0 <= j < seg_pages(b, k) * 4096,
    ensures
        seg_page(b, k, (seg_vaddr(b, k) + j) as u64),
{
    let x = (seg_vaddr(b, k) + j) as u64;
    lemma_vpn_div(seg_vaddr(b, k) as u64);
    lemma_vpn_div(x);
    assert(x / 4096 - seg_vaddr(b, k) / 4096 < seg_pages(b, k)) by (nonlinear_arith)
        requires x == seg_vaddr(b, k) + j, 0 <= j < seg_pages(b, k) * 4096, seg_vaddr(b, k) % 4096 == 0;
    assert(x / 4096 >= seg_vaddr(b, k) / 4096) by (nonlinear_arith)
        requires x == seg_vaddr(b, k) + j, 0 <= j;
}

proof fn lemma_seg_skip(b: Seq<u8>, i: int, m1: PhysMem, mem: PhysMem, root: u64)
    requires
        0 <= i,
        image_so_far(b, i, m1, mem, root),
        seg_ok(b, i),
        !is_load(b, i),
    ensures
        image_so_far(b, i + 1, m1, mem, root),
{
    reveal(image_so_far);
    assert forall|v: u64| #[trigger] loaded_upto(b, i + 1, v) == loaded_upto(b, i, v) by {
        assert(!seg_page(b, i, v));
    }
}

proof fn lemma_seg_step(
    b: Seq<u8>, i: int, m1: PhysMem, pre: PhysMem, mem: PhysMem, root: u64, start_addr: u64, num_page: int, offset: int, file_size: int,
)
    requires
        0 <= i,
        image_so_far(b, i, m1, pre, root),
        mem_step(m1, pre),
        pre.wf(),
        seg_ok(b, i),
        is_load(b, i),
        seg_vaddr(b, i) == start_addr,
        seg_pages(b, i) == num_page,
        seg_file_off(b, i) == offset,
        seg_filesz(b, i) == file_size,
        grow_base(pre, mem, root, start_addr, num_page),
        forall|v: u64| in_pages(start_addr, num_page, v) ==> (#[trigger] pte_view(pre.contents(), root, v)) is None,
        forall|v: u64| in_pages(start_addr, num_page, v) ==> #[trigger] maps_fresh(pre, mem, root, ucode_perm(), v),
        forall|j: int| 0 <= j < num_page * 4096 ==> #[trigger] user_byte(mem.contents(), root, (start_addr + j) as u64)
            == Some(if j < file_size { b[offset + j] } else { 0u8 }),
    ensures
        image_so_far(b, i + 1, m1, mem, root),
{
    reveal(image_so_far);
    pre.lemma_wf();
    pre.lemma_wf_spec();
    assert(AF | ATTRIDX0 | AP_EL1_RX_EL0_RX == 0x4C0u64) by (bit_vector);
    assert(0x4C0u64 & 0x0000_FFFF_FFFF_F000u64 == 0) by (bit_vector);
    assert forall|v: u64| !loaded_upto(b, i + 1, v) implies #[trigger] pte_view(mem.contents(), root, v) == pte_view(m1.contents(), root, v) by {
        assert(!seg_page(b, i, v));
    }
    assert forall|v: u64| loaded_upto(b, i + 1, v) implies (#[trigger] pte_view(m1.contents(), root, v)) is None
        && maps_fresh(m1, mem, root, ucode_perm(), v) by {
        if loaded_upto(b, i, v) {
            assert(maps_fresh(m1, pre, root, ucode_perm(), v));
            let f = choose|f: u64| {
                &&& pte_view(pre.contents(), root, v).unwrap() == #[trigger] leaf_entry(f, ucode_perm())
                &&& m1.free().contains(f)
                &&& !pre.tables().contains(f)
                &&& pre.contents().contains_key(f)
            };
            assert(!in_pages(start_addr, num_page, v));
            assert(!pre.free().contains(f));
            assert(!mem.tables().contains(f));
            assert(mem.contents().contains_key(f));
        } else {
            assert(seg_page(b, i, v));
            assert(in_pages(start_addr, num_page, v));
            assert(maps_fresh(pre, mem, root, ucode_perm(), v));
            let f = choose|f: u64| {
                &&& pte_view(mem.contents(), root, v).unwrap() == #[trigger] leaf_entry(f, ucode_perm())
                &&& pre.free().contains(f)
                &&& !mem.tables().contains(f)
                &&& mem.contents().contains_key(f)
            };
            let jj = choose|jj: int| 0 <= jj < pre.free().len() && pre.free()[jj] == f;
            assert(m1.free()[jj] == f);
        }
    }
    assert forall|k: int, j: int| 0 <= k < i + 1 && is_load(b, k) && 0 <= j < seg_pages(b, k) * 4096
        implies #[trigger] user_byte(mem.contents(), root, (seg_vaddr(b, k) + j) as u64) == Some(seg_byte(b, k, j)) by {
        if k == i {
            assert(user_byte(mem.contents(), root, (start_addr + j) as u64) == Some(if j < file_size { b[offset + j] } else { 0u8 }));
        } else {
            let x = (seg_vaddr(b, k) + j) as u64;
            assert(seg_ok(b, k));
            lemma_seg_page_of(b, k, j);
            lemma_loaded(b, i, x);
            assert(loaded_upto(b, i, x));
            assert(maps_fresh(m1, pre, root, ucode_perm(), x));
            let f = choose|f: u64| {
                &&& pte_view(pre.contents(), root, x).unwrap() == #[trigger] leaf_entry(f, ucode_perm())
                &&& m1.free().contains(f)
                &&& !pre.tables().contains(f)
                &&& pre.contents().contains_key(f)
            };
            assert(!in_pages(start_addr, num_page, x));
            assert(!pre.free().contains(f));
            lemma_leaf_addr(f, ucode_perm());
            lemma_user_byte_kept(pre.contents(), mem.contents(), root, x);
        }
    }
}

/// Replaces `process`'s image with the user program `path` names: builds a
/// new tree for it, loads each loadable segment of the program's ELF image
/// into fresh pages, maps a fresh stack page at `USER_STACK_START`, points
/// the trap frame at the entry point and the top of that stack, and makes
/// the new tree the process's. Returns the trap frame's address.
///
/// A program header table or a segment's bytes that do not fit in the image
/// are refused as `InvalidFormat`; a loadable segment that is not
/// page-aligned, or does not lie below `LOWER_HALF_END`, cannot be mapped
/// and is refused as `MappingFailed`.
#[verifier::rlimit(100)]
pub fn k_exec(
    mem: &mut PhysMem, layout: &KernelLayout, bins: &UserBinaries, path: &str, process: &mut Process,
) -> (r: Result<u64, ExecError>)
    requires
        old(mem).wf(),
        layout_valid(*old(mem), *layout),
        known_program(path) && header_ok(program_image(bins, path)) ==> {
            &&& old(mem).contents().contains_key(old(process).trap_frame)
            &&& !old(mem).tables().contains(old(process).trap_frame)
        },
    ensures
        final(mem).wf(),
        pt_wf(final(mem).contents(), final(mem).tables(), layout.kernel_page_table),
        forall|v: u64| #[trigger] pte_view(final(mem).contents(), layout.kernel_page_table, v)
            == pte_view(old(mem).contents(), layout.kernel_page_table, v),
        r == Err::<u64, ExecError>(ExecError::ProgramNotFound) <==> !known_program(path),
        !known_program(path) || !header_ok(program_image(bins, path)) ==> same_mem(*old(mem), *final(mem)),
        known_program(path) && !header_ok(program_image(bins, path)) ==> r == Err::<u64, ExecError>(ExecError::InvalidFormat),
        r == Err::<u64, ExecError>(ExecError::InvalidFormat) ==> !elf_ok(program_image(bins, path)),
        known_program(path) && elf_ok(program_image(bins, path)) ==> r != Err::<u64, ExecError>(ExecError::InvalidFormat),
        r == Err::<u64, ExecError>(ExecError::MappingFailed) ==> {
            ||| final(mem).free().len() == 0
            ||| !layout_ok(*old(mem), *layout)
            ||| !segments_fit(program_image(bins, path), *layout, old(process).trap_frame)
            ||| !elf_ok(program_image(bins, path))
        },
        r is Ok ==> known_program(path) && elf_ok(program_image(bins, path)),
        r is Err ==> *final(process) == *old(process) && mem_step(*old(mem), *final(mem)),
        r matches Ok(t) ==> {
            let b = program_image(bins, path);
            let tf = old(process).trap_frame;
            let root = final(process).page_table;
            &&& t == tf
            &&& *final(process) == Process { page_table: root, ..*old(process) }
            &&& exec_image(*old(mem), *final(mem), *layout, b, tf, root)
            &&& mem_step_except(*old(mem), *final(mem), tf)
            &&& final(mem).contents().contains_key(tf)
            &&& final(mem).contents()[tf] == old(mem).contents()[tf].update(32, le64(b, 24) as u64)
                    .update(33, USER_STACK_END).update(31, 0u64).update(34, root)
        },
{
    let ghost m0 = *mem;
    let ghost kpt = layout.kernel_page_table;
    proof {
        assert(m0.free() =~= m0.free().subrange(0, m0.free().len() as int));
        assert(mem_step(m0, m0));
    }
    let (_resolved_path, elf_bytes) = match resolve_user_binary(bins, path) {
        None => {
            return Err(ExecError::ProgramNotFound);
        },
        Some(x) => x,
    };
    let ghost b = elf_bytes@;
    let headers = match get_elf_header(elf_bytes) {
        None => {
            return Err(ExecError::InvalidFormat);
        },
        Some(h) => h,
    };
    if !(headers.e_ident[0] == 0x7F && headers.e_ident[1] == 0x45 && headers.e_ident[2] == 0x4C && headers.e_ident[3] == 0x46) {
        proof {
            assert(headers.e_ident@[0] == b[0] && headers.e_ident@[1] == b[1] && headers.e_ident@[2] == b[2] && headers.e_ident@[3] == b[3]);
        }
        return Err(ExecError::InvalidFormat);
    }
    proof {
        assert(headers.e_ident@[0] == b[0] && headers.e_ident@[1] == b[1] && headers.e_ident@[2] == b[2] && headers.e_ident@[3] == b[3]);
        assert(header_ok(b));
    }
    let ph_offset: u64 = headers.e_phoff;
    let ph_count: u64 = headers.e_phnum as u64;
    let ph_size: u64 = headers.e_phentsize as u64;
    let elf_len: u64 = elf_bytes.len() as u64;

    proof {
        m0.lemma_wf();
        assert(process.trap_frame % 4096 == 0 && process.trap_frame + 4096 <= u64::MAX);
    }
    let user_page_table = match proc_page_table(mem, process, layout.kernel_page_table, layout.etext, layout.trampoline) {
        Err(e) => {
            proof {
                if e == MapError::WalkFailed {
                    let (i, q) = choose|i: int, q: int| 0 <= i < NUMBER_OF_PROCESS && 0 <= q < KSTACK_PAGES
                        && (#[trigger] pte_view(m0.contents(), kpt, stack_page(i, q))) is None;
                    assert(!layout_ok(m0, *layout));
                }
            }
            return Err(ExecError::MappingFailed);
        },
        Ok(root) => root,
    };
    let ghost m1 = *mem;
    let ghost root = user_page_table;
    let ghost tf = process.trap_frame;
    proof {
        assert(tree_kept(m0.contents(), m1.contents(), m1.tables(), root, kpt));
        m0.lemma_wf();
        assert(m1.free() =~= m1.free().subrange(0, m1.free().len() as int));
        assert(mem_step(m1, m1));
        lemma_others_refl(m1.contents(), m1.tables(), root);
        reveal(image_so_far);
    }

    let mut i: u64 = 0;
    while i < ph_count
        invariant
            0 <= i <= ph_count,
            ph_count <= 0xFFFF,
            ph_size <= 0xFFFF,
            known_program(path),
            b == program_image(bins, path),
            b == elf_bytes@,
            elf_len == b.len(),
            elf_len <= usize::MAX,
            header_of(b, headers),
            header_ok(b),
            ph_offset == le64(b, 32),
            ph_count == phnum(b),
            ph_size == le16(b, 54),
            root == user_page_table,
            tf == process.trap_frame,
            *process == *old(process),
            m0 == *old(mem),
            layout_valid(m0, *layout),
            kpt == layout.kernel_page_table,
            mem_step(m0, m1),
            m0.contents().contains_key(tf),
            !m0.tables().contains(tf),
            pt_wf(m1.contents(), m1.tables(), kpt),
            pt_disjoint(m1.contents(), root, kpt),
            forall|v: u64| #[trigger] pte_view(m1.contents(), kpt, v) == pte_view(m0.contents(), kpt, v),
            m0.free().contains(root),
            forall|v: u64| !in_kstacks(v) ==> #[trigger] pte_view(m1.contents(), root, v) == proc_map(text_end(*layout), layout.trampoline, tf, v),
            forall|i: int, q: int| 0 <= i < NUMBER_OF_PROCESS && 0 <= q < KSTACK_PAGES
                ==> #[trigger] pte_view(m1.contents(), root, stack_page(i, q)) == stack_leaf(m0.contents(), kpt, stack_page(i, q))
                && stack_leaf(m0.contents(), kpt, stack_page(i, q)) is Some,
            mem.wf(),
            pt_wf(mem.contents(), mem.tables(), root),
            mem_step(m1, *mem),
            others_kept(m1.contents(), m1.tables(), mem.contents(), mem.tables(), root),
            forall|v: u64| !#[trigger] blocked(mem.contents(), root, v),
            image_so_far(b, i as int, m1, *mem, root),
            forall|j: int| 0 <= j < i ==> #[trigger] seg_ok(b, j),
        decreases ph_count - i,
    {
        proof {
            assert(i * ph_size <= 0xFFFF * 0xFFFF) by (nonlinear_arith)
                requires i <= 0xFFFF, ph_size <= 0xFFFF;
        }
        if ph_offset > elf_len || i * ph_size > elf_len - ph_offset || elf_len - ph_offset - i * ph_size < ELF64_PHDR_SIZE as u64 {
            proof {
                assert(!seg_ok(b, i as int));
                lemma_mem_step_trans(m0, m1, *mem);
            }
            return Err(ExecError::InvalidFormat);
        }
        let current_ph_offset = (ph_offset + i * ph_size) as usize;
        let ph = match get_program_header(elf_bytes, current_ph_offset) {
            None => {
                proof {
                    lemma_mem_step_trans(m0, m1, *mem);
                }
                return Err(ExecError::InvalidFormat);
            },
            Some(p) => p,
        };
        proof {
            assert(current_ph_offset == ph_off(b, i as int));
        }
        if ph.p_type == PT_LOAD {
            let start_addr = ph.p_vaddr;
            let mem_size = ph.p_memsz;
            let file_size = ph.p_filesz;
            let offset = ph.p_offset;

            if offset > elf_len || file_size > elf_len - offset {
                proof {
                    assert(!seg_ok(b, i as int));
                    lemma_mem_step_trans(m0, m1, *mem);
                }
                return Err(ExecError::InvalidFormat);
            }
            if start_addr % 4096 != 0 || start_addr > LOWER_HALF_END || mem_size > LOWER_HALF_END - start_addr {
                proof {
                    assert(seg_pages(b, i as int) * 4096 >= seg_memsz(b, i as int)) by (nonlinear_arith)
                        requires seg_memsz(b, i as int) >= 0;
                    assert(!seg_ok(b, i as int));
                    lemma_mem_step_trans(m0, m1, *mem);
                }
                return Err(ExecError::MappingFailed);
            }
            let num_page = (mem_size + PAGE_SIZE as u64 - 1) / PAGE_SIZE as u64;
            let total_size = num_page * PAGE_SIZE as u64;
            if total_size > LOWER_HALF_END - start_addr {
                proof {
                    assert(!seg_ok(b, i as int));
                    lemma_mem_step_trans(m0, m1, *mem);
                }
                return Err(ExecError::MappingFailed);
            }
            let end_addr = start_addr + total_size;
            let ghost pre = *mem;
            proof {
                assert(seg_ok(b, i as int));
                assert(num_page == (end_addr - start_addr + 4095) / 4096) by (nonlinear_arith)
                    requires total_size == num_page * 4096, end_addr == start_addr + total_size;
                assert(AF | ATTRIDX0 | AP_EL1_RX_EL0_RX == 0x4C0u64) by (bit_vector);
                assert(0x4C0u64 & 0x0000_FFFF_FFFF_F000u64 == 0) by (bit_vector);
            }
            let res = load_segment(
                mem, user_page_table, elf_bytes, offset as usize, file_size as usize, start_addr, end_addr,
                AF | ATTRIDX0 | AP_EL1_RX_EL0_RX, Ghost(num_page as int),
            );
            match res {
                Err(e) => {
                    proof {
                        lemma_mem_step_trans(m0, m1, pre);
                        lemma_mem_step_trans(m0, pre, *mem);
                        assert(tree_kept(m1.contents(), mem.contents(), mem.tables(), root, kpt));
                        reveal(image_so_far);
                        if mem.free().len() != 0 && layout_ok(m0, *layout) {
                            let v = choose|v: u64| in_pages(start_addr, num_page as int, v) && (#[trigger] pte_view(pre.contents(), root, v)) is Some;
                            assert(seg_page(b, i as int, v));
                            if loaded_upto(b, i as int, v) {
                                lemma_loaded(b, i as int, v);
                                let k = choose|k: int| 0 <= k < i && #[trigger] seg_page(b, k, v);
                                assert(!segments_fit(b, *layout, tf));
                            } else {
                                assert(pte_view(m1.contents(), root, v) is Some);
                                assert(!segments_fit(b, *layout, tf));
                            }
                        }
                    }
                    return Err(e);
                },
                Ok(()) => {},
            }
            proof {
                lemma_mem_step_trans(m1, pre, *mem);
                lemma_others_trans(m1.contents(), m1.tables(), pre.contents(), pre.tables(), mem.contents(), mem.tables(), root);
                lemma_seg_step(b, i as int, m1, pre, *mem, root, start_addr, num_page as int, offset as int, file_size as int);
            }
        } else {
            proof {
                lemma_seg_skip(b, i as int, m1, *mem, root);
                assert(seg_ok(b, i as int));
            }
        }
        i = i + 1;
    }

    // The user stack: one page below USER_STACK_END.
    let ghost pre = *mem;
    proof {
        assert(AF | ATTRIDX0 | AP_EL1_RW_EL0_RW == 0x440u64) by (bit_vector);
        assert(0x440u64 & 0x0000_FFFF_FFFF_F000u64 == 0) by (bit_vector);
    }
    let res = alloc_fresh(mem, user_page_table, USER_STACK_START, USER_STACK_END, AF | ATTRIDX0 | AP_EL1_RW_EL0_RW, Ghost(1));
    match res {
        Err(e) => {
            proof {
                lemma_mem_step_trans(m0, m1, pre);
                lemma_mem_step_trans(m0, pre, *mem);
                assert(tree_kept(m1.contents(), mem.contents(), mem.tables(), root, kpt));
                reveal(image_so_far);
                if mem.free().len() != 0 && layout_ok(m0, *layout) {
                    let v = choose|v: u64| in_pages(USER_STACK_START, 1, v) && (#[trigger] pte_view(pre.contents(), root, v)) is Some;
                    lemma_user_stack_apart(*layout, tf, v);
                    lemma_loaded(b, ph_count as int, v);
                    let k = choose|k: int| 0 <= k < ph_count && #[trigger] seg_page(b, k, v);
                    assert(!segments_fit(b, *layout, tf));
                }
            }
            return Err(e);
        },
        Ok(()) => {},
    }
    let ghost m2 = *mem;
    let ghost n = phnum(b);
    proof {
        reveal(image_so_far);
        assert(AF | ATTRIDX0 | AP_EL1_RX_EL0_RX == 0x4C0u64) by (bit_vector);
        assert(0x4C0u64 & 0x0000_FFFF_FFFF_F000u64 == 0) by (bit_vector);
        lemma_mem_step_trans(m1, pre, m2);
        lemma_mem_step_trans(m0, m1, m2);
        lemma_others_trans(m1.contents(), m1.tables(), pre.contents(), pre.tables(), m2.contents(), m2.tables(), root);
        assert(tree_kept(m1.contents(), m2.contents(), m2.tables(), root, kpt));
        m0.lemma_wf();
        m0.lemma_wf_spec();
        pre.lemma_wf();
        pre.lemma_wf_spec();
        assert(!m0.free().contains(tf));
        assert(!m2.tables().contains(tf));
        assert(m2.contents().contains_key(tf) && m2.contents()[tf] == m0.contents()[tf]);
    }

    let tf_addr = process.trap_frame;
    mem.write_word(tf_addr, 32, headers.e_entry);
    mem.write_word(tf_addr, 33, USER_STACK_END);
    mem.write_word(tf_addr, 31, 0);
    mem.write_word(tf_addr, 34, user_page_table);

    process.page_table = user_page_table;
    proof {
        let m3 = *mem;
        assert(m3.contents() == m2.contents().insert(tf, m2.contents()[tf].update(32, headers.e_entry)
            .update(33, USER_STACK_END).update(31, 0u64).update(34, root)));
        lemma_data_others(m2.contents(), m3.contents(), m2.tables(), m3.tables(), tf, root);
        assert(tree_kept(m2.contents(), m3.contents(), m3.tables(), root, kpt));
        assert(m3.free() =~= m0.free().subrange(0, m3.free().len() as int));
        assert forall|v: u64| loaded_upto(b, n, v) implies #[trigger] maps_fresh(m0, m3, root, ucode_perm(), v)
            && pte_view(m3.contents(), root, v) == pte_view(pre.contents(), root, v)
            && m3.contents()[pte_view(pre.contents(), root, v).unwrap() & ADDR_MASK] == pre.contents()[pte_view(pre.contents(), root, v).unwrap() & ADDR_MASK] by {
            assert(pte_view(m1.contents(), root, v) is None);
            assert(maps_fresh(m1, pre, root, ucode_perm(), v));
            let f = choose|f: u64| {
                &&& pte_view(pre.contents(), root, v).unwrap() == #[trigger] leaf_entry(f, ucode_perm())
                &&& m1.free().contains(f)
                &&& !pre.tables().contains(f)
                &&& pre.contents().contains_key(f)
            };
            assert(!in_pages(USER_STACK_START, 1, v));
            assert(!pre.free().contains(f));
            assert(!m2.tables().contains(f));
            let jj = choose|jj: int| 0 <= jj < m1.free().len() && m1.free()[jj] == f;
            assert(m0.free()[jj] == f);
            assert(f != tf);
            lemma_leaf_addr(f, ucode_perm());
        }
        assert forall|i: int, v: u64| 0 <= i < n && #[trigger] seg_page(b, i, v) implies maps_fresh(m0, m3, root, ucode_perm(), v) by {
            lemma_loaded(b, n, v);
            assert(loaded_upto(b, n, v));
        }
        assert forall|i: int, j: int| 0 <= i < n && is_load(b, i) && 0 <= j < seg_pages(b, i) * 4096
            implies #[trigger] user_byte(m3.contents(), root, (seg_vaddr(b, i) + j) as u64) == Some(seg_byte(b, i, j)) by {
            let x = (seg_vaddr(b, i) + j) as u64;
            assert(seg_ok(b, i));
            assert(seg_page(b, i, x)) by {
                lemma_vpn_div(seg_vaddr(b, i) as u64);
                lemma_vpn_div(x);
                assert(x / 4096 - seg_vaddr(b, i) / 4096 < seg_pages(b, i)) by (nonlinear_arith)
                    requires x == seg_vaddr(b, i) + j, 0 <= j < seg_pages(b, i) * 4096, seg_vaddr(b, i) % 4096 == 0;
                assert(x / 4096 >= seg_vaddr(b, i) / 4096) by (nonlinear_arith)
                    requires x == seg_vaddr(b, i) + j, 0 <= j;
            }
            lemma_loaded(b, n, x);
            assert(loaded_upto(b, n, x));
            assert(maps_fresh(m0, m3, root, ucode_perm(), x));
            lemma_user_byte_kept(pre.contents(), m3.contents(), root, x);
        }
        assert forall|v: u64| in_pages(USER_STACK_START, 1, v) implies #[trigger] maps_fresh(m0, m3, root, ustack_perm(), v) by {
            assert(maps_fresh(pre, m2, root, ustack_perm(), v));
            let f = choose|f: u64| {
                &&& pte_view(m2.contents(), root, v).unwrap() == #[trigger] leaf_entry(f, ustack_perm())
                &&& pre.free().contains(f)
                &&& !m2.tables().contains(f)
                &&& m2.contents().contains_key(f)
            };
            let jj = choose|jj: int| 0 <= jj < pre.free().len() && pre.free()[jj] == f;
            assert(m0.free()[jj] == f);
        }
        assert forall|j: int| 0 <= j < 4096 implies #[trigger] user_byte(m3.contents(), root, (USER_STACK_START + j) as u64) == Some(0u8) by {
            let x = (USER_STACK_START + j) as u64;
            assert(user_byte(m2.contents(), root, x) == Some(0u8));
            lemma_vpn_div(USER_STACK_START);
            lemma_vpn_div(x);
            assert(in_pages(USER_STACK_START, 1, x));
            assert(maps_fresh(pre, m2, root, ustack_perm(), x));
            let f = choose|f: u64| {
                &&& pte_view(m2.contents(), root, x).unwrap() == #[trigger] leaf_entry(f, ustack_perm())
                &&& pre.free().contains(f)
                &&& !m2.tables().contains(f)
                &&& m2.contents().contains_key(f)
            };
            let jj = choose|jj: int| 0 <= jj < pre.free().len() && pre.free()[jj] == f;
            assert(m0.free()[jj] == f);
            assert(f != tf);
            lemma_leaf_addr(f, ustack_perm());
            lemma_user_byte_kept(m2.contents(), m3.contents(), root, x);
        }
        assert forall|v: u64| !loaded_upto(b, n, v) && !in_pages(USER_STACK_START, 1, v) && !in_kstacks(v)
            implies #[trigger] pte_view(m3.contents(), root, v) == proc_map(text_end(*layout), layout.trampoline, tf, v) by {
            assert(pte_view(pre.contents(), root, v) == pte_view(m1.contents(), root, v));
        }
        assert forall|i: int, q: int| 0 <= i < NUMBER_OF_PROCESS && 0 <= q < KSTACK_PAGES
            implies #[trigger] pte_view(m3.contents(), root, stack_page(i, q)) == stack_leaf(m0.contents(), kpt, stack_page(i, q)) by {
            let sp = stack_page(i, q);
            assert(pte_view(m1.contents(), root, sp) is Some);
            assert(!loaded_upto(b, n, sp));
            assert(pte_view(pre.contents(), root, sp) == pte_view(m1.contents(), root, sp));
            assert(!in_pages(USER_STACK_START, 1, sp));
        }
        assert(exec_image(m0, m3, *layout, b, tf, root));
    }
    Ok(tf_addr)
}

} // verus!
