use vstd::prelude::*;
use crate::memory::{PAGE_SIZE, PhysMem, k_alloc, k_free, kernel_end_addr, RAM_END};
use crate::scheduler::WaitChannel;
use crate::exec::{KernelLayout, layout_valid, layout_ok, text_end};
use crate::pt_spec::{pt_wf, pte_view, lemma_data_others};
use crate::virtual_memory::{
    MapError, NUMBER_OF_PROCESS, k_stack, proc_page_table, mem_step, stack_page, KSTACK_PAGES, lemma_mem_step_trans,
    KSTACK_GUARD_PAGES, TRAMPOLINE, user_frame, user_page_frame, fork_page, USER_IMAGE_START, USER_STACK_START,
    in_kstacks, proc_map, stack_leaf,
};

verus! {

/// Registers saved on entry to the kernel from user mode.
pub struct TrapFrame {
    /// x0 to x30.
    pub regs: [u64; 31],
    pub spsr: u64,
    pub epc: u64,
    pub sp: u64,
    pub ttbr0: u64,
}

/// Callee-saved state for a kernel context switch.
#[derive(Copy, Clone)]
pub struct Context {
    /// x0 to x30.
    pub x: [u64; 31],
    pub sp: u64,
}

/// A context with every register zero.
pub fn zero_context() -> (c: Context)
    ensures
        c.x@ == Seq::new(31, |i: int| 0u64),
        c.sp == 0,
{
    let c = Context { x: [0u64; 31], sp: 0 };
    assert(c.x@ =~= Seq::new(31, |i: int| 0u64));
    c
}

/// Life-cycle state of a process slot.
#[derive(Clone, Copy, PartialEq, Eq, Structural, Debug)]
pub enum ProcessState {
    RUNNABLE,
    RUNNING,
    USED,
    UNUSED,
    SLEEPING,
}

/// A process slot.
#[derive(Copy, Clone)]
pub struct Process {
    /// Process ID.
    pub pid: u8,
    pub state: ProcessState,
    /// Virtual address of the kernel stack.
    pub k_stack: u64,
    /// Root of the user translation tables.
    pub page_table: u64,
    /// Where a context switch to this process resumes.
    pub context: Context,
    /// Physical address of the trap-frame page; 0 when there is none.
    pub trap_frame: u64,
    /// If some, the channel the process sleeps on.
    pub chan: Option<WaitChannel>,
}

/// An unused slot with nothing attached.
pub fn empty_process() -> (p: Process)
    ensures
        p.pid == 0,
        p.state == ProcessState::UNUSED,
        p.k_stack == 0,
        p.page_table == 0,
        p.context.x@ == Seq::new(31, |i: int| 0u64),
        p.context.sp == 0,
        p.trap_frame == 0,
        p.chan is None,
{
    Process {
        pid: 0,
        state: ProcessState::UNUSED,
        k_stack: 0,
        page_table: 0,
        context: zero_context(),
        trap_frame: 0,
        chan: None,
    }
}

/// The process table and the next process ID to hand out.
pub struct ProcTable {
    pub procs: Vec<Process>,
    pub next_pid: u8,
}

/// Why a process could not be set up.
#[derive(Debug, Clone, Copy, PartialEq, Eq)]
pub enum AllocProcError {
    /// Every slot is in use.
    NoFreeSlot,
    /// No frame was left for the trap frame.
    OutOfMemory,
    /// The process's tree could not be built.
    PageTable(MapError),
}

/// The kernel-stack address of slot `i`.
pub open spec fn kstack_of(i: int) -> u64 {
    (TRAMPOLINE - (i + 1) * ((KSTACK_PAGES + KSTACK_GUARD_PAGES) * PAGE_SIZE)) as u64
}

/// A table of `NUMBER_OF_PROCESS` slots, each with no process, with the
/// next ID 1.
pub fn new_proc_table() -> (t: ProcTable)
    ensures
        t.procs@.len() == NUMBER_OF_PROCESS,
        t.next_pid == 1,
        forall|i: int| 0 <= i < NUMBER_OF_PROCESS ==> #[trigger] t.procs@[i].state == ProcessState::UNUSED
            && t.procs@[i].trap_frame == 0 && t.procs@[i].pid == 0,
{
    let mut procs: Vec<Process> = Vec::new();
    let mut i: usize = 0;
    while i < NUMBER_OF_PROCESS
        invariant
            i <= NUMBER_OF_PROCESS,
            procs@.len() == i,
            forall|j: int| 0 <= j < i ==> #[trigger] procs@[j].state == ProcessState::UNUSED
                && procs@[j].trap_frame == 0 && procs@[j].pid == 0,
        decreases NUMBER_OF_PROCESS - i,
    {
        procs.push(empty_process());
        i = i + 1;
    }
    ProcTable { procs, next_pid: 1 }
}

/// Marks every slot unused and gives each its kernel stack.
pub fn proc_init(table: &mut ProcTable)
    requires
        old(table).procs@.len() == NUMBER_OF_PROCESS,
    ensures
        final(table).procs@.len() == NUMBER_OF_PROCESS,
        final(table).next_pid == old(table).next_pid,
        forall|i: int| 0 <= i < NUMBER_OF_PROCESS ==> {
            &&& #[trigger] final(table).procs@[i].state == ProcessState::UNUSED
            &&& final(table).procs@[i].k_stack == kstack_of(i)
            &&& final(table).procs@[i] == (Process {
                    state: ProcessState::UNUSED,
                    k_stack: kstack_of(i),
                    ..old(table).procs@[i]
                })
        },
{
    let mut i: usize = 0;
    while i < NUMBER_OF_PROCESS
        invariant
            i <= NUMBER_OF_PROCESS,
            table.procs@.len() == NUMBER_OF_PROCESS,
            table.next_pid == old(table).next_pid,
            forall|j: int| 0 <= j < i ==> #[trigger] table.procs@[j] == (Process {
                state: ProcessState::UNUSED,
                k_stack: kstack_of(j),
                ..old(table).procs@[j]
            }),
            forall|j: int| i <= j < NUMBER_OF_PROCESS ==> #[trigger] table.procs@[j] == old(table).procs@[j],
        decreases NUMBER_OF_PROCESS - i,
    {
        let mut p = table.procs[i];
        p.state = ProcessState::UNUSED;
        assert((i + 1) * 12288 <= 0x7FFF_FFFF_F000) by (nonlinear_arith)
            requires i < 10;
        p.k_stack = k_stack(i);
        table.procs.set(i, p);
        i = i + 1;
    }
}

/// The first unused slot, if any.
pub fn first_unused_proc(table: &ProcTable) -> (r: Option<usize>)
    ensures
        r matches Some(i) ==> i < table.procs@.len() && table.procs@[i as int].state == ProcessState::UNUSED
            && forall|j: int| 0 <= j < i ==> #[trigger] table.procs@[j].state != ProcessState::UNUSED,
        r is None ==> forall|j: int| 0 <= j < table.procs@.len() ==> #[trigger] table.procs@[j].state != ProcessState::UNUSED,
{
    let mut i: usize = 0;
    while i < table.procs.len()
        invariant
            i <= table.procs@.len(),
            forall|j: int| 0 <= j < i ==> #[trigger] table.procs@[j].state != ProcessState::UNUSED,
        decreases table.procs@.len() - i,
    {
        if table.procs[i].state == ProcessState::UNUSED {
            return Some(i);
        }
        i = i + 1;
    }
    None
}

/// Hands out the next process ID; IDs wrap around after 255.
pub fn alloc_pid(table: &mut ProcTable) -> (pid: u8)
    ensures
        pid == old(table).next_pid,
        final(table).next_pid == old(table).next_pid.wrapping_add(1),
        final(table).procs == old(table).procs,
{
    let pid = table.next_pid;
    table.next_pid = table.next_pid.wrapping_add(1);
    pid
}

/// `p` as `alloc_proc` leaves it in slot `i`: a fresh ID and trap frame,
/// the tree `root`, a context that starts at `ret` on top of the kernel
/// stack, and the state `USED`.
pub open spec fn set_up(old_p: Process, p: Process, pid: u8, tf: u64, root: u64, ret: u64) -> bool {
    &&& p.pid == pid
    &&& p.trap_frame == tf
    &&& p.page_table == root
    &&& p.state == ProcessState::USED
    &&& p.k_stack == old_p.k_stack
    &&& p.chan == old_p.chan
    &&& p.context.sp == ((old_p.k_stack + 4096) as u64) & !0xFu64
    &&& p.context.x@ == Seq::new(31, |i: int| 0u64).update(30, ret)
}

/// The tree at `root` in `m` is the one a new process gets: kernel text
/// and RAM, the devices, the trampoline and the trap frame `tf` as the
/// kernel's layout `l` has them, and every kernel stack mapped onto the
/// frame the kernel's tree maps there.
pub open spec fn process_tree(m: PhysMem, l: KernelLayout, tf: u64, root: u64) -> bool {
    &&& pt_wf(m.contents(), m.tables(), root)
    &&& forall|v: u64| !in_kstacks(v) ==> #[trigger] pte_view(m.contents(), root, v) == proc_map(text_end(l), l.trampoline, tf, v)
    &&& forall|i: int, q: int| 0 <= i < NUMBER_OF_PROCESS && 0 <= q < KSTACK_PAGES
            ==> #[trigger] pte_view(m.contents(), root, stack_page(i, q)) == stack_leaf(m.contents(), l.kernel_page_table, stack_page(i, q))
            && stack_leaf(m.contents(), l.kernel_page_table, stack_page(i, q)) is Some
}

/// Sets up a process in the first unused slot: a zeroed trap-frame page, a
/// fresh ID, its tree, and a context that resumes at `ret` (the address of
/// `forkret`) on top of its kernel stack. Returns the slot.
pub fn alloc_proc(mem: &mut PhysMem, table: &mut ProcTable, layout: &KernelLayout, ret: u64) -> (r: Result<usize, AllocProcError>)
    requires
        old(mem).wf(),
        layout_valid(*old(mem), *layout),
        forall|j: int| 0 <= j < old(table).procs@.len() ==> #[trigger] old(table).procs@[j].k_stack + 4096 <= u64::MAX,
    ensures
        final(mem).wf(),
        mem_step(*old(mem), *final(mem)),
        final(table).procs@.len() == old(table).procs@.len(),
        forall|v: u64| #[trigger] pte_view(final(mem).contents(), layout.kernel_page_table, v)
            == pte_view(old(mem).contents(), layout.kernel_page_table, v),
        pt_wf(final(mem).contents(), final(mem).tables(), layout.kernel_page_table),
        r == Err::<usize, AllocProcError>(AllocProcError::NoFreeSlot) <==>
            forall|j: int| 0 <= j < old(table).procs@.len() ==> #[trigger] old(table).procs@[j].state != ProcessState::UNUSED,
        r == Err::<usize, AllocProcError>(AllocProcError::NoFreeSlot) ==> *final(table) == *old(table),
        r == Err::<usize, AllocProcError>(AllocProcError::OutOfMemory) ==> old(mem).free().len() == 0,
        (exists|j: int| 0 <= j < old(table).procs@.len() && #[trigger] old(table).procs@[j].state == ProcessState::UNUSED)
            && old(mem).free().len() == 0 ==> r == Err::<usize, AllocProcError>(AllocProcError::OutOfMemory),
        r matches Err(AllocProcError::PageTable(e)) ==> {
            ||| e == MapError::AllocationFailed && final(mem).free().len() == 0
            ||| e == MapError::ZeroSize && (text_end(*layout) == crate::virtual_memory::KERNEL_PHYS_BASE || text_end(*layout) == RAM_END)
            ||| e == MapError::UnalignedAddress && layout.trampoline % 4096 != 0
            ||| e == MapError::WalkFailed && exists|i: int, q: int| 0 <= i < NUMBER_OF_PROCESS && 0 <= q < KSTACK_PAGES
                    && (#[trigger] pte_view(old(mem).contents(), layout.kernel_page_table, stack_page(i, q))) is None
        },
        r matches Ok(i) ==> {
            &&& i < old(table).procs@.len()
            &&& old(table).procs@[i as int].state == ProcessState::UNUSED
            &&& forall|j: int| 0 <= j < i ==> #[trigger] old(table).procs@[j].state != ProcessState::UNUSED
            &&& final(table).next_pid == old(table).next_pid.wrapping_add(1)
            &&& forall|j: int| 0 <= j < old(table).procs@.len() && j != i ==> #[trigger] final(table).procs@[j] == old(table).procs@[j]
            &&& old(mem).free().len() > 0
            &&& set_up(old(table).procs@[i as int], final(table).procs@[i as int], old(table).next_pid,
                    old(mem).free().last(), final(table).procs@[i as int].page_table, ret)
            &&& final(mem).contents().contains_key(old(mem).free().last())
            &&& final(mem).contents()[old(mem).free().last()] == Seq::new(512, |k: int| 0u64)
            &&& old(mem).free().contains(final(table).procs@[i as int].page_table)
            &&& final(table).procs@[i as int].page_table != old(mem).free().last()
            &&& process_tree(*final(mem), *layout, old(mem).free().last(), final(table).procs@[i as int].page_table)
        },
{
    let i = match first_unused_proc(table) {
        None => {
            proof {
                assert(mem.free() =~= mem.free().subrange(0, mem.free().len() as int));
            }
            return Err(AllocProcError::NoFreeSlot);
        },
        Some(i) => i,
    };
    let ghost m0 = *mem;
    let run = match k_alloc(mem) {
        None => {
            proof {
                assert(mem.free() =~= m0.free().subrange(0, mem.free().len() as int));
            }
            return Err(AllocProcError::OutOfMemory);
        },
        Some(run) => run,
    };
    let tf = run.addr;
    mem.zero_frame(tf);
    let ghost m1 = *mem;
    proof {
        m0.lemma_wf();
        assert(m0.free()[m0.free().len() - 1] == tf);
        assert(!m0.tables().contains(tf));
        assert(mem.free() =~= m0.free().subrange(0, mem.free().len() as int));
        assert(mem_step(m0, m1));
        lemma_data_others(m0.contents(), m1.contents(), m0.tables(), m1.tables(), tf, layout.kernel_page_table);
        m1.lemma_wf();
        m1.lemma_wf_spec();
    }
    let mut p = table.procs[i];
    p.pid = alloc_pid(table);
    p.trap_frame = tf;
    let ghost t1 = *table;
    let res = proc_page_table(mem, &p, layout.kernel_page_table, layout.etext, layout.trampoline);
    proof {
        lemma_mem_step_trans(m0, m1, *mem);
    }
    let root = match res {
        Err(e) => {
            proof {
                if e == MapError::WalkFailed {
                    let (a, q) = choose|a: int, q: int| 0 <= a < NUMBER_OF_PROCESS && 0 <= q < KSTACK_PAGES
                        && (#[trigger] pte_view(m1.contents(), layout.kernel_page_table, stack_page(a, q))) is None;
                    assert(pte_view(m0.contents(), layout.kernel_page_table, stack_page(a, q)) is None);
                }
            }
            return Err(AllocProcError::PageTable(e));
        },
        Ok(root) => root,
    };
    proof {
        assert(!mem.tables().contains(tf));
        assert(root != tf) by {
            assert(m1.free() == m0.free().drop_last());
            assert(m1.free().contains(root));
            m0.lemma_wf_spec();
            let j = choose|j: int| 0 <= j < m1.free().len() && m1.free()[j] == root;
            assert(m0.free()[j] == root);
        }
        assert(m0.free().contains(root)) by {
            let j = choose|j: int| 0 <= j < m1.free().len() && m1.free()[j] == root;
            assert(m0.free()[j] == root);
        }
        assert forall|a: int, q: int| 0 <= a < NUMBER_OF_PROCESS && 0 <= q < KSTACK_PAGES
            implies #[trigger] pte_view(mem.contents(), root, stack_page(a, q)) == stack_leaf(mem.contents(), layout.kernel_page_table, stack_page(a, q))
            && stack_leaf(mem.contents(), layout.kernel_page_table, stack_page(a, q)) is Some by {
            assert(pte_view(mem.contents(), root, stack_page(a, q)) == stack_leaf(m1.contents(), layout.kernel_page_table, stack_page(a, q)));
            assert(pte_view(mem.contents(), layout.kernel_page_table, stack_page(a, q)) == pte_view(m1.contents(), layout.kernel_page_table, stack_page(a, q)));
        }
        assert(process_tree(*mem, *layout, tf, root));
    }
    p.page_table = root;
    p.context = zero_context();
    p.context.sp = (p.k_stack + PAGE_SIZE as u64) & !0xFu64;
    p.context.x[30] = ret;
    p.state = ProcessState::USED;
    table.procs.set(i, p);
    Ok(i)
}

/// Sets up the first user process and makes it runnable. Returns its slot.
pub fn user_init(mem: &mut PhysMem, table: &mut ProcTable, layout: &KernelLayout, ret: u64) -> (r: Result<usize, AllocProcError>)
    requires
        old(mem).wf(),
        layout_valid(*old(mem), *layout),
        forall|j: int| 0 <= j < old(table).procs@.len() ==> #[trigger] old(table).procs@[j].k_stack + 4096 <= u64::MAX,
    ensures
        final(mem).wf(),
        mem_step(*old(mem), *final(mem)),
        pt_wf(final(mem).contents(), final(mem).tables(), layout.kernel_page_table),
        forall|v: u64| #[trigger] pte_view(final(mem).contents(), layout.kernel_page_table, v)
            == pte_view(old(mem).contents(), layout.kernel_page_table, v),
        final(table).procs@.len() == old(table).procs@.len(),
        r == Err::<usize, AllocProcError>(AllocProcError::NoFreeSlot) <==>
            forall|j: int| 0 <= j < old(table).procs@.len() ==> #[trigger] old(table).procs@[j].state != ProcessState::UNUSED,
        r == Err::<usize, AllocProcError>(AllocProcError::NoFreeSlot) ==> *final(table) == *old(table),
        r == Err::<usize, AllocProcError>(AllocProcError::OutOfMemory) ==> old(mem).free().len() == 0,
        (exists|j: int| 0 <= j < old(table).procs@.len() && #[trigger] old(table).procs@[j].state == ProcessState::UNUSED)
            && old(mem).free().len() == 0 ==> r == Err::<usize, AllocProcError>(AllocProcError::OutOfMemory),
        r matches Err(AllocProcError::PageTable(e)) ==> {
            ||| e == MapError::AllocationFailed && final(mem).free().len() == 0
            ||| e == MapError::ZeroSize && (text_end(*layout) == crate::virtual_memory::KERNEL_PHYS_BASE || text_end(*layout) == RAM_END)
            ||| e == MapError::UnalignedAddress && layout.trampoline % 4096 != 0
            ||| e == MapError::WalkFailed && exists|i: int, q: int| 0 <= i < NUMBER_OF_PROCESS && 0 <= q < KSTACK_PAGES
                    && (#[trigger] pte_view(old(mem).contents(), layout.kernel_page_table, stack_page(i, q))) is None
        },
        layout_ok(*old(mem), *layout) && r is Err && r != Err::<usize, AllocProcError>(AllocProcError::NoFreeSlot)
            ==> final(mem).free().len() == 0,
        r matches Ok(i) ==> {
            &&& i < old(table).procs@.len()
            &&& old(table).procs@[i as int].state == ProcessState::UNUSED
            &&& forall|j: int| 0 <= j < i ==> #[trigger] old(table).procs@[j].state != ProcessState::UNUSED
            &&& final(table).procs@[i as int].state == ProcessState::RUNNABLE
            &&& set_up(old(table).procs@[i as int], Process { state: ProcessState::USED, ..final(table).procs@[i as int] },
                    old(table).next_pid, old(mem).free().last(), final(table).procs@[i as int].page_table, ret)
            &&& old(mem).free().contains(final(table).procs@[i as int].page_table)
            &&& final(table).procs@[i as int].page_table != old(mem).free().last()
            &&& process_tree(*final(mem), *layout, old(mem).free().last(), final(table).procs@[i as int].page_table)
            &&& final(mem).contents().contains_key(old(mem).free().last())
            &&& final(mem).contents()[old(mem).free().last()] == Seq::new(512, |k: int| 0u64)
            &&& final(table).next_pid == old(table).next_pid.wrapping_add(1)
            &&& old(mem).free().len() > 0
            &&& final(table).procs@[i as int].pid == old(table).next_pid
            &&& final(table).procs@[i as int].trap_frame == old(mem).free().last()
            &&& final(table).procs@[i as int].k_stack == old(table).procs@[i as int].k_stack
            &&& forall|j: int| 0 <= j < old(table).procs@.len() && j != i ==> #[trigger] final(table).procs@[j] == old(table).procs@[j]
        },
{
    let i = match alloc_proc(mem, table, layout, ret) {
        Err(e) => {
            return Err(e);
        },
        Ok(i) => i,
    };
    let mut p = table.procs[i];
    p.state = ProcessState::RUNNABLE;
    table.procs.set(i, p);
    Ok(i)
}

/// A frame `freeproc` may give back: one that holds data and lies after the
/// kernel image.
pub open spec fn releasable(m: PhysMem, f: u64) -> bool {
    m.contents().contains_key(f) && m.kernel_end() <= f
}

/// A frame hanging from `p`: its trap frame, or the frame of one of the
/// user pages (program image and stack) its tree maps.
pub open spec fn owned_frame(m: PhysMem, p: Process, f: u64) -> bool {
    ||| f == p.trap_frame
    ||| p.page_table != 0 && exists|k: int| 0 <= k < 33 && #[trigger] user_frame(m, p.page_table, fork_page(k)) == Some(f)
}

/// The frames pushed onto the free list between `before` and `after`.
pub open spec fn pushed(before: Seq<u64>, after: Seq<u64>) -> Seq<u64> {
    after.subrange(before.len() as int, after.len() as int)
}

/// Gives the frame `f` back to the allocator if it holds data and lies
/// after the kernel image.
fn release_frame(mem: &mut PhysMem, f: u64)
    requires
        old(mem).wf(),
    ensures
        final(mem).wf(),
        final(mem).kernel_end() == old(mem).kernel_end(),
        releasable(*old(mem), f) ==> {
            &&& final(mem).free() == old(mem).free().push(f)
            &&& final(mem).contents() == old(mem).contents().remove(f)
            &&& final(mem).tables() == old(mem).tables().remove(f)
        },
        !releasable(*old(mem), f) ==> *final(mem) == *old(mem),
{
    if mem.is_present(f) && kernel_end_addr(mem) <= f {
        proof {
            mem.lemma_wf();
            mem.lemma_wf_spec();
        }
        k_free(mem, f);
    }
}

/// Frees `p` and what hangs from it: gives its trap frame and the frames of
/// its user pages (the program image and the stack page) back to the
/// allocator, trap frame first, then the pages in address order, each
/// frame once; detaches them and marks `p` unused.
pub fn freeproc(mem: &mut PhysMem, p: &mut Process)
    requires
        old(mem).wf(),
        old(p).page_table != 0 ==> pt_wf(old(mem).contents(), old(mem).tables(), old(p).page_table),
    ensures
        final(mem).wf(),
        final(mem).kernel_end() == old(mem).kernel_end(),
        final(mem).free().len() >= old(mem).free().len(),
        final(mem).free().subrange(0, old(mem).free().len() as int) == old(mem).free(),
        forall|j: int| old(mem).free().len() <= j < final(mem).free().len() ==> {
            &&& releasable(*old(mem), #[trigger] final(mem).free()[j])
            &&& owned_frame(*old(mem), *old(p), final(mem).free()[j])
        },
        releasable(*old(mem), old(p).trap_frame) ==> final(mem).free().contains(old(p).trap_frame),
        old(p).page_table != 0 ==> forall|k: int| 0 <= k < 33
            && (#[trigger] user_frame(*old(mem), old(p).page_table, fork_page(k))) is Some
            && releasable(*old(mem), user_frame(*old(mem), old(p).page_table, fork_page(k)).unwrap())
            ==> final(mem).free().contains(user_frame(*old(mem), old(p).page_table, fork_page(k)).unwrap()),
        final(mem).contents() == old(mem).contents().remove_keys(pushed(old(mem).free(), final(mem).free()).to_set()),
        final(mem).tables() == old(mem).tables().difference(pushed(old(mem).free(), final(mem).free()).to_set()),
        final(p).trap_frame == 0,
        final(p).page_table == 0,
        final(p).pid == 0,
        final(p).context.x@ == Seq::new(31, |i: int| 0u64),
        final(p).context.sp == 0,
        final(p).state == ProcessState::UNUSED,
        final(p).k_stack == old(p).k_stack,
        final(p).chan == old(p).chan,
{
    let ghost m0 = *mem;
    let ghost p0 = *p;
    let root = p.page_table;
    let mut frames: Vec<Option<u64>> = Vec::new();
    if root != 0 {
        let mut k: usize = 0;
        while k < 33
            invariant
                k <= 33,
                root != 0,
                m0 == *mem,
                mem.wf(),
                pt_wf(mem.contents(), mem.tables(), root),
                frames@.len() == k,
                forall|j: int| 0 <= j < k ==> #[trigger] frames@[j] == user_frame(m0, root, fork_page(j)),
            decreases 33 - k,
        {
            let va: u64 = if k < 32 { USER_IMAGE_START + (k as u64) * 4096 } else { USER_STACK_START };
            assert(va == fork_page(k as int));
            let f = user_page_frame(mem, root, va);
            frames.push(f);
            k = k + 1;
        }
    }
    let ghost mut out: Seq<u64> = Seq::empty();
    let tf = p.trap_frame;
    let ghost mb = *mem;
    release_frame(mem, tf);
    proof {
        assert(Seq::<u64>::empty().to_set() =~= Set::<u64>::empty());
        if releasable(mb, tf) {
            Seq::<u64>::empty().lemma_push_to_set_commute(tf);
            out = out.push(tf);
            assert(out[0] == tf);
            assert(owned_frame(m0, p0, tf));
        }
        assert(mem.free() =~= m0.free() + out);
        assert(mem.contents() =~= m0.contents().remove_keys(out.to_set()));
        assert(mem.tables() =~= m0.tables().difference(out.to_set()));
    }
    let mut k: usize = 0;
    while k < frames.len()
        invariant
            k <= frames@.len(),
            root == p0.page_table,
            root != 0 ==> frames@.len() == 33,
            root == 0 ==> frames@.len() == 0,
            forall|j: int| 0 <= j < frames@.len() ==> #[trigger] frames@[j] == user_frame(m0, root, fork_page(j)),
            m0 == *old(mem),
            p0 == *old(p),
            tf == p0.trap_frame,
            mem.wf(),
            mem.kernel_end() == m0.kernel_end(),
            mem.free() == m0.free() + out,
            mem.contents() == m0.contents().remove_keys(out.to_set()),
            mem.tables() == m0.tables().difference(out.to_set()),
            forall|j: int| 0 <= j < out.len() ==> releasable(m0, #[trigger] out[j]) && owned_frame(m0, p0, out[j]),
            releasable(m0, tf) ==> out.contains(tf),
            forall|j: int| 0 <= j < k && (#[trigger] frames@[j]) is Some && releasable(m0, frames@[j].unwrap())
                ==> out.contains(frames@[j].unwrap()),
        decreases frames@.len() - k,
    {
        match frames[k] {
            Some(f) => {
                let ghost mb = *mem;
                release_frame(mem, f);
                proof {
                    assert(user_frame(m0, root, fork_page(k as int)) == Some(f));
                    assert(owned_frame(m0, p0, f));
                    if releasable(mb, f) {
                        assert(releasable(m0, f));
                        let o2 = out.push(f);
                        assert(mem.free() =~= m0.free() + o2);
                        out.lemma_push_to_set_commute(f);
                        assert(mem.contents() =~= m0.contents().remove_keys(o2.to_set()));
                        assert(mem.tables() =~= m0.tables().difference(o2.to_set()));
                        assert forall|j: int| 0 <= j < o2.len() implies releasable(m0, #[trigger] o2[j]) && owned_frame(m0, p0, o2[j]) by {
                            if j < out.len() { assert(o2[j] == out[j]); }
                        }
                        assert forall|x: u64| out.contains(x) implies o2.contains(x) by {
                            let j = choose|j: int| 0 <= j < out.len() && out[j] == x;
                            assert(o2[j] == x);
                        }
                        assert(o2[out.len() as int] == f);
                        out = o2;
                    } else {
                        if releasable(m0, f) {
                            assert(!mb.contents().contains_key(f));
                            assert(out.to_set().contains(f));
                        }
                    }
                }
            },
            None => {},
        }
        k = k + 1;
    }
    proof {
        assert(pushed(m0.free(), mem.free()) =~= out);
        assert(mem.free().subrange(0, m0.free().len() as int) =~= m0.free());
        assert forall|j: int| m0.free().len() <= j < mem.free().len() implies {
            &&& releasable(m0, #[trigger] mem.free()[j])
            &&& owned_frame(m0, p0, mem.free()[j])
        } by {
            assert(mem.free()[j] == out[j - m0.free().len()]);
        }
        assert forall|x: u64| out.contains(x) implies mem.free().contains(x) by {
            let j = choose|j: int| 0 <= j < out.len() && out[j] == x;
            assert(mem.free()[m0.free().len() + j] == x);
        }
        if root != 0 {
            assert forall|kk: int| 0 <= kk < 33
                && (#[trigger] user_frame(m0, root, fork_page(kk))) is Some
                && releasable(m0, user_frame(m0, root, fork_page(kk)).unwrap())
                implies mem.free().contains(user_frame(m0, root, fork_page(kk)).unwrap()) by {
                assert(frames@[kk] == user_frame(m0, root, fork_page(kk)));
            }
        }
    }
    p.trap_frame = 0;
    p.page_table = 0;
    p.pid = 0;
    p.context = zero_context();
    p.state = ProcessState::UNUSED;
}

} // verus!
