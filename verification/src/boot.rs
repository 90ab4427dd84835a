use vstd::prelude::*;
use crate::memory::{PhysMem, RAM_START, RAM_END, round_up_spec, range_pages, can_free_range, k_me_init};
use crate::virtual_memory::{
    MapError, k_vm_init, kernel_map, in_kstacks, backed_by_fresh, stacks_apart, stack_page, junk_page, KERNEL_PHYS_BASE,
    NUMBER_OF_PROCESS, KSTACK_PAGES, KSTACK_PERM,
};
use crate::pt_spec::{pt_wf, pte_view};
use crate::exec::{KernelLayout, layout_valid, layout_ok};
use crate::process::{
    AllocProcError, ProcTable, ProcessState, kstack_of, new_proc_table, proc_init, user_init, process_tree,
};
use crate::scheduler::{Cpu, new_cpu};
use crate::log::{LogLevel, LogState, new_log_state, init_logging};

verus! {

/// The kernel once it has booted: its logger, RAM, layout, process table
/// and CPU, and the slot of the first user process.
pub struct Kernel {
    pub log: LogState,
    pub mem: PhysMem,
    pub layout: KernelLayout,
    pub table: ProcTable,
    pub cpu: Cpu,
    pub first: usize,
}

/// Why the kernel could not boot.
#[derive(Debug, Clone, Copy, PartialEq, Eq)]
pub enum BootError {
    /// The kernel's own tree could not be built.
    VmInit(MapError),
    /// The first user process could not be set up.
    UserInit(AllocProcError),
}

/// A boot that stopped: why, and RAM as the failed step left it.
pub struct BootFailure {
    pub error: BootError,
    pub mem: PhysMem,
}

/// A fresh RAM model may release every page between the kernel and the
/// end of RAM.
proof fn lemma_fresh_can_free(mem: PhysMem, kernel_end: u64)
    requires
        RAM_START <= kernel_end <= RAM_END,
        mem.kernel_end() == kernel_end,
        mem.free() == Seq::<u64>::empty(),
        mem.tables() == Set::<u64>::empty(),
    ensures
        can_free_range(mem, kernel_end as int, RAM_END as int),
{
    let start = kernel_end as int;
    let end = RAM_END as int;
    let r = round_up_spec(start);
    assert(start <= r < start + 4096) by (nonlinear_arith)
        requires r == ((start + 4095) / 4096) * 4096, start >= 0;
    let pages = range_pages(start, end);
    assert forall|k: int| 0 <= k < pages.len() implies {
        let p = #[trigger] pages[k];
        &&& mem.kernel_end() <= p < RAM_END
        &&& !mem.free().contains(p)
        &&& !mem.tables().contains(p)
    } by {
        let n = (end - r) / 4096;
        assert(r + 4096 <= end);
        assert(4096 * k + 4096 <= end - r) by (nonlinear_arith)
            requires 0 <= k < n, n == (end - r) / 4096, end - r >= 4096;
        assert(pages[k] == (r + 4096 * k) as u64);
    }
}

/// Boots the kernel: switches logging on, hands every page after the kernel
/// image (which ends at `kernel_end`) to the frame allocator, builds the
/// kernel's tree for a text that ends at `etext` and a trampoline at
/// `trampoline`, sets up the process table, and makes the first user
/// process, which starts at `forkret`. The caller then installs the tree,
/// brings up the interrupt controller and enters the scheduler. A boot that
/// fails hands back the reason and RAM as it was left.
pub fn k_main(kernel_end: u64, etext: u64, trampoline: u64, forkret: u64) -> (r: Result<Kernel, BootFailure>)
    requires
        RAM_START <= kernel_end <= RAM_END,
        etext + 4096 <= u64::MAX,
        KERNEL_PHYS_BASE <= round_up_spec(etext as int) <= RAM_END,
        trampoline % 4096 == 0 ==> trampoline + 4096 <= u64::MAX,
    ensures
        r matches Ok(k) ==> {
            let root = k.layout.kernel_page_table;
            &&& k.log.initialised
            &&& k.log.min_level == LogLevel::Info
            &&& k.mem.wf()
            &&& k.mem.kernel_end() == kernel_end
            &&& k.layout.etext == etext
            &&& k.layout.trampoline == trampoline
            &&& layout_valid(k.mem, k.layout)
            &&& forall|v: u64| !in_kstacks(v) ==> #[trigger] pte_view(k.mem.contents(), root, v)
                    == kernel_map(round_up_spec(etext as int) as u64, trampoline, v)
            &&& stacks_apart(k.mem.contents(), root, 2 * NUMBER_OF_PROCESS)
            &&& k.table.procs@.len() == NUMBER_OF_PROCESS
            &&& k.first == 0
            &&& k.table.procs@[0].state == ProcessState::RUNNABLE
            &&& k.table.procs@[0].pid == 1
            &&& k.table.procs@[0].k_stack == kstack_of(0)
            &&& k.table.procs@[0].context.x@ == Seq::new(31, |j: int| 0u64).update(30, forkret)
            &&& k.table.procs@[0].context.sp == ((kstack_of(0) + 4096) as u64) & !0xFu64
            &&& k.table.procs@[0].page_table != k.table.procs@[0].trap_frame
            &&& process_tree(k.mem, k.layout, k.table.procs@[0].trap_frame, k.table.procs@[0].page_table)
            &&& k.mem.contents().contains_key(k.table.procs@[0].trap_frame)
            &&& k.mem.contents()[k.table.procs@[0].trap_frame] == Seq::new(512, |j: int| 0u64)
            &&& forall|i: int| 1 <= i < NUMBER_OF_PROCESS ==> #[trigger] k.table.procs@[i].state == ProcessState::UNUSED
                    && k.table.procs@[i].k_stack == kstack_of(i)
            &&& k.cpu.process is None
        },
        r matches Err(f) ==> f.mem.wf() && f.mem.kernel_end() == kernel_end,
        r matches Err(f) ==> (f.error matches BootError::VmInit(e) ==> {
            ||| e == MapError::AllocationFailed && f.mem.free().len() == 0
            ||| e == MapError::ZeroSize && (round_up_spec(etext as int) == KERNEL_PHYS_BASE || round_up_spec(etext as int) == RAM_END)
            ||| e == MapError::UnalignedAddress && trampoline % 4096 != 0
        }),
        r matches Err(f) ==> (f.error matches BootError::UserInit(e) ==>
            (e == AllocProcError::OutOfMemory || e == AllocProcError::PageTable(MapError::AllocationFailed))
            && f.mem.free().len() == 0),
        round_up_spec(etext as int) != KERNEL_PHYS_BASE && round_up_spec(etext as int) != RAM_END && trampoline % 4096 == 0
            ==> (r matches Err(f) ==> f.mem.free().len() == 0),
        round_up_spec(etext as int) == KERNEL_PHYS_BASE || round_up_spec(etext as int) == RAM_END || trampoline % 4096 != 0
            ==> (r matches Err(f) && f.error is VmInit),
{
    let mut log = new_log_state();
    init_logging(&mut log);
    let mut mem = PhysMem::new(kernel_end);
    proof {
        lemma_fresh_can_free(mem, kernel_end);
    }
    k_me_init(&mut mem);
    let ghost m0 = mem;
    let root = match k_vm_init(&mut mem, etext, trampoline) {
        Ok(root) => root,
        Err(e) => {
            return Err(BootFailure { error: BootError::VmInit(e), mem });
        },
    };
    let layout = KernelLayout { kernel_page_table: root, etext, trampoline };
    proof {
        assert forall|i: int, q: int| 0 <= i < NUMBER_OF_PROCESS && 0 <= q < KSTACK_PAGES
            implies (#[trigger] pte_view(mem.contents(), root, stack_page(i, q))) is Some by {
            assert(backed_by_fresh(m0, mem, root, KSTACK_PERM, stack_page(i, q), junk_page()));
        }
        assert(layout_ok(mem, layout));
    }
    let mut table = new_proc_table();
    proc_init(&mut table);
    proof {
        assert forall|j: int| 0 <= j < table.procs@.len() implies #[trigger] table.procs@[j].k_stack + 4096 <= u64::MAX by {
            assert(table.procs@[j].state == ProcessState::UNUSED);
            assert(table.procs@[j].k_stack == kstack_of(j));
            assert(0 <= 0x7FFF_FFFF_F000 - (j + 1) * 12288 <= 0x7FFF_FFFF_F000) by (nonlinear_arith)
                requires 0 <= j < 10;
        }
    }
    let ghost t0 = table;
    let first = match user_init(&mut mem, &mut table, &layout, forkret) {
        Ok(i) => i,
        Err(e) => {
            proof {
                assert(t0.procs@[0].state == ProcessState::UNUSED);
            }
            return Err(BootFailure { error: BootError::UserInit(e), mem });
        },
    };
    proof {
        assert(t0.procs@[0].state == ProcessState::UNUSED);
        assert(first == 0);
        assert forall|i: int| 1 <= i < NUMBER_OF_PROCESS implies #[trigger] table.procs@[i].state == ProcessState::UNUSED
            && table.procs@[i].k_stack == kstack_of(i) by {
            assert(table.procs@[i] == t0.procs@[i]);
        }
    }
    Ok(Kernel { log, mem, layout, table, cpu: new_cpu(), first })
}

} // verus!
