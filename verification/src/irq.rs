use vstd::prelude::*;
use vstd::string::StringSliceAdditionalSpecFns;
use crate::memory::PhysMem;
use crate::process::ProcTable;
use crate::scheduler::{Cpu, my_proc};
use crate::exec::{ExecError, KernelLayout, UserBinaries, k_exec, layout_valid, layout_ok, known_program, exec_image, program_image, header_ok, elf_ok, segments_fit};
use crate::virtual_memory::{same_mem, mem_step};
use crate::pt_spec::pt_wf;

verus! {

/// Interrupt ID of the first virtio device on QEMU's `virt` machine.
pub const IRQ_VIRTIO0: usize = 48;
/// GIC CPU interface: interrupt acknowledge register.
pub const GICC_IAR: usize = 0x000C;
/// GIC CPU interface: end of interrupt register.
pub const GICC_EOIR: usize = 0x0010;
/// GIC CPU interface: priority mask register.
pub const GICC_PMR: usize = 0x0004;
/// GIC CPU interface: control register.
pub const GICC_CTLR: usize = 0x0000;
/// GIC distributor: control register.
pub const GICD_CTLR: usize = 0x0000;
/// GIC distributor: interrupt priority registers.
pub const GICD_IPRIORITYR: usize = 0x400;
/// GIC distributor: interrupt target registers.
pub const GICD_ITARGETSR: usize = 0x800;
/// GIC distributor: interrupt set-enable registers.
pub const GICD_ISENABLER: usize = 0x100;
/// GIC distributor: interrupt set-pending registers.
pub const GICD_ISPENDR: usize = 0x200;

/// The interrupt mask state `push_off` saved: the DAIF register.
#[derive(Copy, Clone)]
pub struct IrqState {
    pub daif: u64,
}

/// Whether `pop_off` unmasks IRQs again: they were unmasked (DAIF.I, bit 7,
/// clear) when `state` was saved.
pub fn pop_off(state: IrqState) -> (unmask: bool)
    ensures
        unmask == (state.daif & 0x80 == 0),
{
    assert(1u64 << 7u64 == 0x80) by (bit_vector);
    (state.daif & (1u64 << 7u64)) == 0
}

/// The ID of the interrupt an acknowledge register value `iar` names
/// (bits 9:0), or `None` for a spurious one (1022 or 1023).
pub fn irq_id(iar: u32) -> (r: Option<usize>)
    ensures
        r == if (iar & 0x3FF) < 1022 { Some((iar & 0x3FF) as usize) } else { None::<usize> },
{
    let id = (iar & 0x3FF) as usize;
    if id < 1022 { Some(id) } else { None }
}

/// The exception class (bits 31:26) of a syndrome register value `esr`.
pub fn exception_class(esr: u64) -> (r: u64)
    ensures
        r == (esr >> 26u64) & 0x3F,
        r < 64,
{
    assert((esr >> 26u64) & 0x3F < 64) by (bit_vector);
    (esr >> 26u64) & 0x3F
}

/// A write of `value` at `offset` in the GIC distributor.
#[derive(Copy, Clone, Debug, PartialEq, Eq, Structural)]
pub struct GicWrite {
    pub offset: usize,
    pub value: u32,
}

/// The distributor writes that make interrupt `int_id` pending.
pub fn pend_interrupt(int_id: usize) -> (w: GicWrite)
    requires
        int_id <= 0xFFFF,
    ensures
        w.offset == GICD_ISPENDR + (int_id / 32) * 4,
        w.value == 1u32 << ((int_id % 32) as u32),
{
    let pend_reg_offset = GICD_ISPENDR + ((int_id / 32) * 4);
    let pend_bit = 1u32 << ((int_id % 32) as u32);
    GicWrite { offset: pend_reg_offset, value: pend_bit }
}

/// Shift of interrupt `int_id`'s byte in its 4-byte register.
pub open spec fn byte_shift(int_id: usize) -> u32 {
    ((int_id % 4) * 8) as u32
}

/// `reg` with the byte of interrupt `int_id` replaced by `b`.
pub open spec fn with_byte(reg: u32, int_id: usize, b: u8) -> u32 {
    (reg & !(0xFFu32 << byte_shift(int_id))) | ((b as u32) << byte_shift(int_id))
}

/// The distributor writes that give interrupt `int_id` priority `priority`,
/// route it (a shared interrupt, ID 32 or more) to the CPUs in
/// `target_cpu_mask`, and enable it. Each of the interrupt's fields is a
/// byte of a 4-byte register shared with three other interrupts: only that
/// byte changes. `priorities` and `targets` are what the interrupt's
/// priority and target registers read before the change.
pub fn enable_interrupt(int_id: usize, priority: u8, target_cpu_mask: u8, priorities: u32, targets: u32) -> (w: Vec<GicWrite>)
    requires
        int_id <= 0xFFFF,
    ensures
        w@.len() == if int_id >= 32 { 3int } else { 2int },
        w@[0] == (GicWrite {
            offset: (GICD_IPRIORITYR + (int_id / 4) * 4) as usize,
            value: with_byte(priorities, int_id, priority),
        }),
        int_id >= 32 ==> w@[1] == (GicWrite {
            offset: (GICD_ITARGETSR + (int_id / 4) * 4) as usize,
            value: with_byte(targets, int_id, target_cpu_mask),
        }),
        w@.last() == (GicWrite {
            offset: (GICD_ISENABLER + (int_id / 32) * 4) as usize,
            value: 1u32 << ((int_id % 32) as u32),
        }),
{
    let mut w: Vec<GicWrite> = Vec::new();
    assert(int_id & !3usize == (int_id / 4) * 4) by (bit_vector)
        requires int_id <= 0xFFFF;
    let pri_reg_offset: usize = GICD_IPRIORITYR + (int_id & !3usize);
    let pri_shift = ((int_id % 4) * 8) as u32;
    let mut pri_val = priorities;
    pri_val = pri_val & !(0xFFu32 << pri_shift);
    pri_val = pri_val | ((priority as u32) << pri_shift);
    w.push(GicWrite { offset: pri_reg_offset, value: pri_val });
    if int_id >= 32 {
        let target_reg_offset = GICD_ITARGETSR + (int_id & !3usize);
        let target_shift = ((int_id % 4) * 8) as u32;
        let mut target_val = targets;
        target_val = target_val & !(0xFFu32 << target_shift);
        target_val = target_val | ((target_cpu_mask as u32) << target_shift);
        w.push(GicWrite { offset: target_reg_offset, value: target_val });
    }
    let enable_reg_offset = GICD_ISENABLER + ((int_id / 32) * 4);
    let enable_bit = 1u32 << ((int_id % 32) as u32);
    w.push(GicWrite { offset: enable_reg_offset, value: enable_bit });
    w
}

/// A system call the kernel serves, by number.
#[derive(Copy, Clone, Debug, PartialEq, Eq, Structural)]
pub enum Syscall {
    /// Number 0: nothing to do.
    Nop,
    /// Number 99: a test call that only logs.
    Probe,
    Write,
    Read,
    Exit,
    Fork,
    Exec,
    Wait,
    Unknown,
}

/// `write(ptr, len)`: writes a string.
pub const SYS_WRITE: u64 = 64;
/// `read()`: reads one character.
pub const SYS_READ: u64 = 63;
/// `exit()`: ends the calling process.
pub const SYS_EXIT: u64 = 93;
/// `fork()`: copies the calling process.
pub const SYS_FORK: u64 = 220;
/// `exec(name_ptr, name_len)`: replaces the calling process's program.
pub const SYS_EXEC: u64 = 221;
/// `wait()`: waits for a child to exit.
pub const SYS_WAIT: u64 = 260;

/// The system call numbered `id`.
pub open spec fn syscall_of(id: u64) -> Syscall {
    if id == 0 {
        Syscall::Nop
    } else if id == 99 {
        Syscall::Probe
    } else if id == SYS_WRITE {
        Syscall::Write
    } else if id == SYS_READ {
        Syscall::Read
    } else if id == SYS_EXIT {
        Syscall::Exit
    } else if id == SYS_FORK {
        Syscall::Fork
    } else if id == SYS_EXEC {
        Syscall::Exec
    } else if id == SYS_WAIT {
        Syscall::Wait
    } else {
        Syscall::Unknown
    }
}

/// The system call numbered `id`.
pub fn decode_syscall(id: u64) -> (r: Syscall)
    ensures
        r == syscall_of(id),
{
    if id == 0 {
        Syscall::Nop
    } else if id == 99 {
        Syscall::Probe
    } else if id == SYS_WRITE {
        Syscall::Write
    } else if id == SYS_READ {
        Syscall::Read
    } else if id == SYS_EXIT {
        Syscall::Exit
    } else if id == SYS_FORK {
        Syscall::Fork
    } else if id == SYS_EXEC {
        Syscall::Exec
    } else if id == SYS_WAIT {
        Syscall::Wait
    } else {
        Syscall::Unknown
    }
}

/// The value a failed system call returns in x0.
pub const SYSCALL_FAILED: u64 = 0xFFFF_FFFF_FFFF_FFFF;

/// Whether `exec`'s name argument can name a program: a non-null pointer
/// and a non-empty name.
pub fn exec_args_ok(name_ptr: u64, name_len: u64) -> (r: bool)
    ensures
        r == (name_ptr != 0 && name_len != 0),
{
    name_ptr != 0 && name_len != 0
}

/// Whether `write` has a string to write: a non-null pointer and a
/// non-empty length.
pub fn write_args_ok(str_ptr: u64, str_len: u64) -> (r: bool)
    ensures
        r == (str_ptr != 0 && str_len > 0),
{
    str_ptr != 0 && str_len > 0
}

/// The writes that `init_irq` makes, in order: those to the CPU interface
/// first, then those to the distributor.
pub struct IrqInit {
    pub cpu: Vec<GicWrite>,
    pub dist: Vec<GicWrite>,
}

/// The writes that bring the GIC up: the CPU interface accepts every
/// priority and is enabled; the virtio disk's interrupt gets priority 2,
/// goes to CPU 0 and is enabled; then the distributor is enabled.
/// `priorities` and `targets` are what the disk interrupt's priority and
/// target registers read before the change; the other interrupts' bytes in
/// them are kept. IRQs are unmasked afterwards.
pub fn init_irq(priorities: u32, targets: u32) -> (r: IrqInit)
    ensures
        r.cpu@ == seq![GicWrite { offset: GICC_PMR, value: 0xFF }, GicWrite { offset: GICC_CTLR, value: 0x01 }],
        r.dist@.len() == 4,
        r.dist@[0] == (GicWrite {
            offset: (GICD_IPRIORITYR + IRQ_VIRTIO0) as usize,
            value: (priorities & !0xFFu32) | 0x02u32,
        }),
        r.dist@[1] == (GicWrite {
            offset: (GICD_ITARGETSR + IRQ_VIRTIO0) as usize,
            value: (targets & !0xFFu32) | 0x01u32,
        }),
        r.dist@[2] == (GicWrite {
            offset: (GICD_ISENABLER + 4) as usize,
            value: 1u32 << 16u32,
        }),
        r.dist@[3] == (GicWrite { offset: GICD_CTLR, value: 0x01 }),
{
    let mut cpu: Vec<GicWrite> = Vec::new();
    cpu.push(GicWrite { offset: GICC_PMR, value: 0xFF });
    cpu.push(GicWrite { offset: GICC_CTLR, value: 0x01 });
    let mut dist = enable_interrupt(IRQ_VIRTIO0, 0x02, 0x01, priorities, targets);
    dist.push(GicWrite { offset: GICD_CTLR, value: 0x01 });
    assert(byte_shift(IRQ_VIRTIO0) == 0);
    assert((priorities & !(0xFFu32 << 0u32)) | ((0x02u8 as u32) << 0u32) == (priorities & !0xFFu32) | 0x02u32) by (bit_vector);
    assert((targets & !(0xFFu32 << 0u32)) | ((0x01u8 as u32) << 0u32) == (targets & !0xFFu32) | 0x01u32) by (bit_vector);
    assert(cpu@ =~= seq![GicWrite { offset: GICC_PMR, value: 0xFF }, GicWrite { offset: GICC_CTLR, value: 0x01 }]);
    IrqInit { cpu, dist }
}

/// What the kernel does for an interrupt whose acknowledge register read
/// `iar`: the interrupt it handles, if not spurious, and the end-of-interrupt
/// write of `iar` back to the CPU interface.
pub fn irq_handler(iar: u32) -> (r: (Option<usize>, GicWrite))
    ensures
        r.0 == if (iar & 0x3FF) < 1022 { Some((iar & 0x3FF) as usize) } else { None::<usize> },
        r.1 == (GicWrite { offset: GICC_EOIR, value: iar }),
{
    let id = irq_id(iar);
    (id, GicWrite { offset: GICC_EOIR, value: iar })
}

/// What the kernel does for a system call.
#[derive(Copy, Clone, Debug, PartialEq, Eq, Structural)]
pub enum SyscallAction {
    /// Nothing.
    Nothing,
    /// Log that the probe call came in.
    LogProbe,
    /// Log the `len` bytes of user memory at `ptr`, if they are UTF-8.
    WriteString { ptr: u64, len: u64 },
    /// Return the next character from the UART.
    ReadChar,
    /// End the calling process.
    Exit,
    /// Copy the calling process.
    Fork,
    /// Replace the calling process's program with the one named by the
    /// `len` bytes of user memory at `ptr`.
    Exec { ptr: u64, len: u64 },
    /// Wait for a child to exit.
    Wait,
    /// Return `SYSCALL_FAILED`.
    Fail,
    /// Log that call `id` is unknown.
    Unknown(u64),
}

/// What the kernel does for system call `id` with arguments `arg0` and
/// `arg1`: `write` with a null pointer or an empty string does nothing, and
/// `exec` with a null pointer or an empty name fails.
pub fn syscall_action(id: u64, arg0: u64, arg1: u64) -> (r: SyscallAction)
    ensures
        r == match syscall_of(id) {
            Syscall::Nop => SyscallAction::Nothing,
            Syscall::Probe => SyscallAction::LogProbe,
            Syscall::Write => if arg0 != 0 && arg1 > 0 {
                SyscallAction::WriteString { ptr: arg0, len: arg1 }
            } else {
                SyscallAction::Nothing
            },
            Syscall::Read => SyscallAction::ReadChar,
            Syscall::Exit => SyscallAction::Exit,
            Syscall::Fork => SyscallAction::Fork,
            Syscall::Exec => if arg0 != 0 && arg1 != 0 {
                SyscallAction::Exec { ptr: arg0, len: arg1 }
            } else {
                SyscallAction::Fail
            },
            Syscall::Wait => SyscallAction::Wait,
            Syscall::Unknown => SyscallAction::Unknown(id),
        },
{
    match decode_syscall(id) {
        Syscall::Nop => SyscallAction::Nothing,
        Syscall::Probe => SyscallAction::LogProbe,
        Syscall::Write => if write_args_ok(arg0, arg1) {
            SyscallAction::WriteString { ptr: arg0, len: arg1 }
        } else {
            SyscallAction::Nothing
        },
        Syscall::Read => SyscallAction::ReadChar,
        Syscall::Exit => SyscallAction::Exit,
        Syscall::Fork => SyscallAction::Fork,
        Syscall::Exec => if exec_args_ok(arg0, arg1) {
            SyscallAction::Exec { ptr: arg0, len: arg1 }
        } else {
            SyscallAction::Fail
        },
        Syscall::Wait => SyscallAction::Wait,
        Syscall::Unknown => SyscallAction::Unknown(id),
    }
}

/// Why `exec` failed for the calling process.
#[derive(Copy, Clone, Debug, PartialEq, Eq, Structural)]
pub enum ExecCallError {
    /// No process runs on the CPU.
    NoProcess,
    /// Loading the program failed.
    Exec(ExecError),
}

/// Serves `exec(name)` for the process running on `cpu`: loads the program
/// `name` names into it with `k_exec`. Returns the trap frame to return to
/// user mode through.
pub fn exec_current(
    mem: &mut PhysMem, layout: &KernelLayout, bins: &UserBinaries, table: &mut ProcTable, cpu: &Cpu, name: &str,
) -> (r: Result<u64, ExecCallError>)
    requires
        old(mem).wf(),
        layout_valid(*old(mem), *layout),
        cpu.process matches Some(i) ==> {
            &&& i < old(table).procs@.len()
            &&& known_program(name) && header_ok(program_image(bins, name)) ==> {
                &&& old(mem).contents().contains_key(old(table).procs@[i as int].trap_frame)
                &&& !old(mem).tables().contains(old(table).procs@[i as int].trap_frame)
            }
        },
    ensures
        final(mem).wf(),
        pt_wf(final(mem).contents(), final(mem).tables(), layout.kernel_page_table),
        final(table).next_pid == old(table).next_pid,
        final(table).procs@.len() == old(table).procs@.len(),
        cpu.process is None ==> r == Err::<u64, ExecCallError>(ExecCallError::NoProcess)
            && *final(mem) == *old(mem) && *final(table) == *old(table),
        cpu.process matches Some(i) ==> {
            &&& forall|j: int| 0 <= j < old(table).procs@.len() && j != i ==> #[trigger] final(table).procs@[j] == old(table).procs@[j]
            &&& (r == Err::<u64, ExecCallError>(ExecCallError::Exec(ExecError::ProgramNotFound)) <==> !known_program(name))
            &&& r is Err ==> final(table).procs@[i as int] == old(table).procs@[i as int]
                && mem_step(*old(mem), *final(mem))
            &&& !known_program(name) || !header_ok(program_image(bins, name)) ==> same_mem(*old(mem), *final(mem))
            &&& known_program(name) && !header_ok(program_image(bins, name))
                ==> r == Err::<u64, ExecCallError>(ExecCallError::Exec(ExecError::InvalidFormat))
            &&& r == Err::<u64, ExecCallError>(ExecCallError::Exec(ExecError::InvalidFormat)) ==> !elf_ok(program_image(bins, name))
            &&& r == Err::<u64, ExecCallError>(ExecCallError::Exec(ExecError::MappingFailed)) ==> {
                ||| final(mem).free().len() == 0
                ||| !layout_ok(*old(mem), *layout)
                ||| !segments_fit(program_image(bins, name), *layout, old(table).procs@[i as int].trap_frame)
                ||| !elf_ok(program_image(bins, name))
            }
            &&& r is Ok <==> known_program(name) && elf_ok(program_image(bins, name))
                && r != Err::<u64, ExecCallError>(ExecCallError::Exec(ExecError::MappingFailed))
            &&& r matches Ok(t) ==> {
                let p = old(table).procs@[i as int];
                let root = final(table).procs@[i as int].page_table;
                &&& t == p.trap_frame
                &&& final(table).procs@[i as int] == (crate::process::Process { page_table: root, ..p })
                &&& exec_image(*old(mem), *final(mem), *layout, program_image(bins, name), t, root)
            }
        },
{
    let i = match my_proc(cpu) {
        None => return Err(ExecCallError::NoProcess),
        Some(i) => i,
    };
    let mut p = table.procs[i];
    let r = k_exec(mem, layout, bins, name, &mut p);
    match r {
        Ok(t) => {
            table.procs.set(i, p);
            Ok(t)
        },
        Err(e) => Err(ExecCallError::Exec(e)),
    }
}

} // verus!
