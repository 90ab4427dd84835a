use rustos::boot::{k_main, BootError, Kernel};
use rustos::exec::{k_exec, user_binary_paths, ExecError, KernelLayout, UserBinaries};
use rustos::irq::{exec_current, ExecCallError};
use rustos::memory::{k_alloc, k_me_init, PhysMem, RAM_END};
use rustos::process::{
    alloc_pid, alloc_proc, empty_process, first_unused_proc, freeproc, new_proc_table, proc_init, user_init,
    AllocProcError, ProcessState,
};
use rustos::scheduler::{
    my_proc, new_cpu, sched, schedule_pick, sleep_begin, sleep_end, wake_up, SchedError, WaitChannel,
};
use rustos::virtual_memory::{
    k_stack, kvm_translate, MapError, KERNEL_PHYS_BASE, NUMBER_OF_PROCESS, TRAMPOLINE, UART0_BASE, USER_STACK_END,
    USER_STACK_START,
};

const KERNEL_END: u64 = 0x4020_0000;
const ETEXT: u64 = 0x4010_0000;
const TRAMPOLINE_PA: u64 = 0x400F_F000;
const FORKRET: u64 = 0x4008_1234;

fn boot() -> Kernel {
    k_main(KERNEL_END, ETEXT, TRAMPOLINE_PA, FORKRET).ok().unwrap()
}

fn put_u16(b: &mut Vec<u8>, o: usize, v: u16) {
    b[o..o + 2].copy_from_slice(&v.to_le_bytes());
}

fn put_u32(b: &mut Vec<u8>, o: usize, v: u32) {
    b[o..o + 4].copy_from_slice(&v.to_le_bytes());
}

fn put_u64(b: &mut Vec<u8>, o: usize, v: u64) {
    b[o..o + 8].copy_from_slice(&v.to_le_bytes());
}

/// An ELF64 image with one loadable segment at `vaddr`, whose file bytes
/// are `data` and which takes `memsz` bytes in memory.
fn elf_image(entry: u64, vaddr: u64, data: &[u8], memsz: u64) -> Vec<u8> {
    let mut b = vec![0u8; 128];
    b[0..4].copy_from_slice(&[0x7F, b'E', b'L', b'F']);
    b[4] = 2;
    b[5] = 1;
    b[6] = 1;
    put_u16(&mut b, 16, 2);
    put_u16(&mut b, 18, 0xB7);
    put_u32(&mut b, 20, 1);
    put_u64(&mut b, 24, entry);
    put_u64(&mut b, 32, 64);
    put_u16(&mut b, 52, 64);
    put_u16(&mut b, 54, 56);
    put_u16(&mut b, 56, 1);
    put_u32(&mut b, 64, 1);
    put_u32(&mut b, 68, 5);
    put_u64(&mut b, 72, 128);
    put_u64(&mut b, 80, vaddr);
    put_u64(&mut b, 88, vaddr);
    put_u64(&mut b, 96, data.len() as u64);
    put_u64(&mut b, 104, memsz);
    put_u64(&mut b, 112, 0x1000);
    b.extend_from_slice(data);
    b
}

fn binaries(sh: Vec<u8>) -> UserBinaries {
    UserBinaries { sh, help: elf_image(0x10_0000, 0x10_0000, b"help", 0x1000) }
}

#[test]
fn boot_sets_up_the_first_process() {
    let k = boot();
    assert!(k.log.initialised);
    assert_eq!(k.first, 0);
    assert_eq!(k.table.procs.len(), NUMBER_OF_PROCESS);
    let p = k.table.procs[0];
    assert_eq!(p.state, ProcessState::RUNNABLE);
    assert_eq!(p.pid, 1);
    assert_eq!(p.k_stack, TRAMPOLINE - 3 * 4096);
    assert_eq!(p.context.x[30], FORKRET);
    assert_eq!(p.context.sp, (p.k_stack + 4096) & !0xF);
    assert_ne!(p.trap_frame, 0);
    assert_ne!(p.page_table, 0);
    assert_eq!(k.table.next_pid, 2);
    for i in 1..NUMBER_OF_PROCESS {
        assert_eq!(k.table.procs[i].state, ProcessState::UNUSED);
        assert_eq!(k.table.procs[i].k_stack, TRAMPOLINE - (i as u64 + 1) * 3 * 4096);
    }
    assert_eq!(k.cpu.process, None);
    assert_eq!(k.layout.etext, ETEXT);
    assert_eq!(k.layout.trampoline, TRAMPOLINE_PA);
}

#[test]
fn boot_maps_the_kernel() {
    let mut k = boot();
    let root = k.layout.kernel_page_table;
    assert_eq!(kvm_translate(&mut k.mem, root, UART0_BASE + 0x18), Ok(UART0_BASE + 0x18));
    assert_eq!(kvm_translate(&mut k.mem, root, KERNEL_PHYS_BASE), Ok(KERNEL_PHYS_BASE));
    assert_eq!(kvm_translate(&mut k.mem, root, 0x4400_0010), Ok(0x4400_0010));
    assert_eq!(kvm_translate(&mut k.mem, root, TRAMPOLINE + 8), Ok(TRAMPOLINE_PA + 8));
    assert_eq!(kvm_translate(&mut k.mem, root, 0x1000), Err(MapError::WalkFailed));
}

#[test]
fn boot_refuses_an_unaligned_trampoline() {
    assert!(matches!(
        k_main(KERNEL_END, ETEXT, TRAMPOLINE_PA + 8, FORKRET).err().map(|f| f.error),
        Some(BootError::VmInit(MapError::UnalignedAddress))
    ));
}

#[test]
fn boot_refuses_an_empty_text() {
    assert!(matches!(
        k_main(KERNEL_END, KERNEL_PHYS_BASE, TRAMPOLINE_PA, FORKRET).err().map(|f| f.error),
        Some(BootError::VmInit(MapError::ZeroSize))
    ));
}

#[test]
fn proc_table_starts_unused() {
    let mut t = new_proc_table();
    assert_eq!(t.next_pid, 1);
    assert_eq!(first_unused_proc(&t), Some(0));
    proc_init(&mut t);
    assert_eq!(t.procs[9].k_stack, TRAMPOLINE - 10 * 3 * 4096);
    assert!(t.procs.iter().all(|p| p.state == ProcessState::UNUSED));
}

#[test]
fn first_unused_skips_used_slots() {
    let mut t = new_proc_table();
    t.procs[0].state = ProcessState::RUNNING;
    t.procs[1].state = ProcessState::SLEEPING;
    assert_eq!(first_unused_proc(&t), Some(2));
    for p in t.procs.iter_mut() {
        p.state = ProcessState::USED;
    }
    assert_eq!(first_unused_proc(&t), None);
}

#[test]
fn pids_count_up_and_wrap() {
    let mut t = new_proc_table();
    assert_eq!(alloc_pid(&mut t), 1);
    assert_eq!(alloc_pid(&mut t), 2);
    t.next_pid = 255;
    assert_eq!(alloc_pid(&mut t), 255);
    assert_eq!(t.next_pid, 0);
}

#[test]
fn freeproc_clears_the_slot() {
    let mut k = boot();
    let mut p = k.table.procs[0];
    let tf = p.trap_frame;
    assert!(k.mem.is_present(tf));
    freeproc(&mut k.mem, &mut p);
    assert!(!k.mem.is_present(tf));
    assert_eq!(k_alloc(&mut k.mem).unwrap().addr, tf);
    assert_eq!(p.state, ProcessState::UNUSED);
    assert_eq!(p.pid, 0);
    assert_eq!(p.trap_frame, 0);
    assert_eq!(p.page_table, 0);
    assert_eq!(p.context.sp, 0);
    assert!(p.context.x.iter().all(|&x| x == 0));
    assert_eq!(p.k_stack, k.table.procs[0].k_stack);
    let e = empty_process();
    assert_eq!(e.state, ProcessState::UNUSED);
}

#[test]
fn freeproc_gives_back_user_pages() {
    let mut k = boot();
    let bins = binaries(elf_image(0x10_0000, 0x10_0000, b"abc", 0x2000));
    let mut p = k.table.procs[0];
    k_exec(&mut k.mem, &k.layout, &bins, "sh", &mut p).unwrap();
    let code0 = kvm_translate(&mut k.mem, p.page_table, 0x10_0000).unwrap();
    let code1 = kvm_translate(&mut k.mem, p.page_table, 0x10_1000).unwrap();
    let stack = kvm_translate(&mut k.mem, p.page_table, USER_STACK_START).unwrap();
    let tf = p.trap_frame;
    freeproc(&mut k.mem, &mut p);
    for f in [code0, code1, stack, tf] {
        assert!(!k.mem.is_present(f));
    }
    assert_eq!(k_alloc(&mut k.mem).unwrap().addr, stack);
    assert_eq!(k_alloc(&mut k.mem).unwrap().addr, code1);
    assert_eq!(k_alloc(&mut k.mem).unwrap().addr, code0);
    assert_eq!(k_alloc(&mut k.mem).unwrap().addr, tf);
    assert_eq!(p.state, ProcessState::UNUSED);
}

#[test]
fn second_process_gets_the_next_slot_and_pid() {
    let mut k = boot();
    let i = alloc_proc(&mut k.mem, &mut k.table, &k.layout, 0x5555).unwrap();
    assert_eq!(i, 1);
    let p = k.table.procs[1];
    assert_eq!(p.state, ProcessState::USED);
    assert_eq!(p.pid, 2);
    assert_eq!(p.context.x[30], 0x5555);
    for w in [0usize, 31, 511] {
        assert_eq!(k.mem.read_word(p.trap_frame, w), 0);
    }
    assert_ne!(p.trap_frame, k.table.procs[0].trap_frame);
}

#[test]
fn no_free_slot() {
    let mut k = boot();
    for p in k.table.procs.iter_mut() {
        p.state = ProcessState::RUNNING;
    }
    assert_eq!(user_init(&mut k.mem, &mut k.table, &k.layout, FORKRET), Err(AllocProcError::NoFreeSlot));
}

fn small_table() -> rustos::process::ProcTable {
    let mut t = new_proc_table();
    proc_init(&mut t);
    t
}

#[test]
fn no_memory_for_a_trap_frame() {
    let mut mem = PhysMem::new(RAM_END as u64);
    let mut t = small_table();
    let l = KernelLayout { kernel_page_table: 0, etext: ETEXT, trampoline: TRAMPOLINE_PA };
    assert_eq!(alloc_proc(&mut mem, &mut t, &l, FORKRET), Err(AllocProcError::OutOfMemory));
    assert_eq!(t.procs[0].state, ProcessState::UNUSED);
}

#[test]
fn no_memory_for_a_process_tree() {
    let mut mem = PhysMem::new(RAM_END as u64 - 4096);
    k_me_init(&mut mem);
    let mut t = small_table();
    let l = KernelLayout { kernel_page_table: 0, etext: ETEXT, trampoline: TRAMPOLINE_PA };
    assert_eq!(
        alloc_proc(&mut mem, &mut t, &l, FORKRET),
        Err(AllocProcError::PageTable(MapError::AllocationFailed))
    );
}

#[test]
fn scheduler_picks_runnable_in_order() {
    let mut t = new_proc_table();
    let mut cpu = new_cpu();
    t.procs[2].state = ProcessState::RUNNABLE;
    t.procs[5].state = ProcessState::RUNNABLE;
    assert_eq!(schedule_pick(&mut t, &mut cpu, 0), Some(2));
    assert_eq!(t.procs[2].state, ProcessState::RUNNING);
    assert_eq!(my_proc(&cpu), Some(2));
    assert_eq!(schedule_pick(&mut t, &mut cpu, 3), Some(5));
    assert_eq!(my_proc(&cpu), Some(5));
    assert_eq!(schedule_pick(&mut t, &mut cpu, 6), None);
    assert_eq!(my_proc(&cpu), Some(5));
    assert_eq!(schedule_pick(&mut t, &mut cpu, 0), None);
}

#[test]
fn sched_checks_the_running_process() {
    let mut t = new_proc_table();
    let mut cpu = new_cpu();
    assert_eq!(sched(&t, &cpu), Err(SchedError::NoProcess));
    t.procs[4].state = ProcessState::RUNNABLE;
    schedule_pick(&mut t, &mut cpu, 0);
    assert_eq!(sched(&t, &cpu), Err(SchedError::StillRunning));
    sleep_begin(&mut t.procs[4], WaitChannel::DiskFree);
    assert_eq!(sched(&t, &cpu), Ok(4));
}

#[test]
fn sleep_then_wake_up() {
    let mut t = new_proc_table();
    t.procs[1].state = ProcessState::RUNNING;
    t.procs[3].state = ProcessState::RUNNING;
    sleep_begin(&mut t.procs[1], WaitChannel::DiskBuf(7));
    sleep_begin(&mut t.procs[3], WaitChannel::Child(1));
    assert_eq!(t.procs[1].state, ProcessState::SLEEPING);
    assert_eq!(t.procs[1].chan, Some(WaitChannel::DiskBuf(7)));
    wake_up(&mut t, WaitChannel::DiskBuf(8));
    assert_eq!(t.procs[1].state, ProcessState::SLEEPING);
    wake_up(&mut t, WaitChannel::DiskBuf(7));
    assert_eq!(t.procs[1].state, ProcessState::RUNNABLE);
    assert_eq!(t.procs[3].state, ProcessState::SLEEPING);
    sleep_end(&mut t.procs[1]);
    assert_eq!(t.procs[1].chan, None);
    wake_up(&mut t, WaitChannel::Child(1));
    assert_eq!(t.procs[3].state, ProcessState::RUNNABLE);
    assert_eq!(t.procs[0].state, ProcessState::UNUSED);
}

#[test]
fn wake_up_twice_changes_nothing_more() {
    let mut t = new_proc_table();
    t.procs[0].state = ProcessState::RUNNING;
    sleep_begin(&mut t.procs[0], WaitChannel::PipeRead(3));
    wake_up(&mut t, WaitChannel::PipeRead(3));
    let states: Vec<ProcessState> = t.procs.iter().map(|p| p.state).collect();
    wake_up(&mut t, WaitChannel::PipeRead(3));
    let again: Vec<ProcessState> = t.procs.iter().map(|p| p.state).collect();
    assert_eq!(states, again);
}

#[test]
fn binary_paths() {
    let p = user_binary_paths();
    assert_eq!(p.sh, "../../../target/aarch64-unknown-none/debug/sh");
    assert_eq!(p.help, "../../../target/aarch64-unknown-none/debug/help");
}

#[test]
fn exec_loads_the_program() {
    let mut k = boot();
    let code: Vec<u8> = (1u8..=20).collect();
    let bins = binaries(elf_image(0x10_0010, 0x10_0000, &code, 0x1800));
    let mut p = k.table.procs[0];
    let tf = k_exec(&mut k.mem, &k.layout, &bins, "sh", &mut p).unwrap();
    assert_eq!(tf, k.table.procs[0].trap_frame);
    assert_ne!(p.page_table, k.table.procs[0].page_table);
    assert_eq!(k.mem.read_word(tf, 31), 0);
    assert_eq!(k.mem.read_word(tf, 32), 0x10_0010);
    assert_eq!(k.mem.read_word(tf, 33), USER_STACK_END);
    assert_eq!(k.mem.read_word(tf, 34), p.page_table);
    let pa = kvm_translate(&mut k.mem, p.page_table, 0x10_0000).unwrap();
    assert_eq!(pa % 4096, 0);
    assert_eq!(k.mem.read_word(pa, 0), u64::from_le_bytes([1, 2, 3, 4, 5, 6, 7, 8]));
    assert_eq!(k.mem.read_word(pa, 1), u64::from_le_bytes([9, 10, 11, 12, 13, 14, 15, 16]));
    assert_eq!(k.mem.read_word(pa, 2), u64::from_le_bytes([17, 18, 19, 20, 0, 0, 0, 0]));
    assert_eq!(k.mem.read_word(pa, 3), 0);
    let pa2 = kvm_translate(&mut k.mem, p.page_table, 0x10_1008).unwrap();
    assert_eq!(k.mem.read_word(pa2 - 8, 1), 0);
    assert!(kvm_translate(&mut k.mem, p.page_table, USER_STACK_START).is_ok());
    assert_eq!(kvm_translate(&mut k.mem, p.page_table, 0x10_2000), Err(MapError::WalkFailed));
    assert_eq!(kvm_translate(&mut k.mem, p.page_table, TRAMPOLINE), Ok(TRAMPOLINE_PA));
}

#[test]
fn exec_unknown_program() {
    let mut k = boot();
    let bins = binaries(elf_image(0x10_0000, 0x10_0000, b"x", 0x1000));
    let mut p = k.table.procs[0];
    assert_eq!(k_exec(&mut k.mem, &k.layout, &bins, "ls", &mut p), Err(ExecError::ProgramNotFound));
    assert_eq!(k_exec(&mut k.mem, &k.layout, &bins, "", &mut p), Err(ExecError::ProgramNotFound));
    assert_eq!(
        k_exec(&mut k.mem, &k.layout, &bins, "../../../target/aarch64-unknown-none/debug/user", &mut p),
        Err(ExecError::ProgramNotFound)
    );
    assert_eq!(p.page_table, k.table.procs[0].page_table);
}

#[test]
fn exec_refuses_a_bad_image() {
    let mut k = boot();
    let mut p = k.table.procs[0];
    let bins = binaries(vec![0u8; 200]);
    assert_eq!(k_exec(&mut k.mem, &k.layout, &bins, "sh", &mut p), Err(ExecError::InvalidFormat));
    let bins = binaries(vec![0x7F, b'E', b'L', b'F']);
    assert_eq!(k_exec(&mut k.mem, &k.layout, &bins, "sh", &mut p), Err(ExecError::InvalidFormat));
    let mut bad = elf_image(0x10_0000, 0x10_0000, b"x", 0x1000);
    put_u64(&mut bad, 96, 0x1000);
    let bins = binaries(bad);
    assert_eq!(k_exec(&mut k.mem, &k.layout, &bins, "sh", &mut p), Err(ExecError::InvalidFormat));
    let bins = binaries(elf_image(0x10_0000, 0x10_0800, b"x", 0x1000));
    assert_eq!(k_exec(&mut k.mem, &k.layout, &bins, "sh", &mut p), Err(ExecError::MappingFailed));
    let bins = binaries(elf_image(0x10_0000, 0xFFFF_0000_0000_0000, b"x", 0x1000));
    assert_eq!(k_exec(&mut k.mem, &k.layout, &bins, "sh", &mut p), Err(ExecError::MappingFailed));
}

#[test]
fn exec_over_the_trampoline_fails_to_map() {
    let mut k = boot();
    let mut p = k.table.procs[0];
    let bins = binaries(elf_image(TRAMPOLINE, TRAMPOLINE, b"x", 0x1000));
    assert_eq!(k_exec(&mut k.mem, &k.layout, &bins, "sh", &mut p), Err(ExecError::MappingFailed));
}

#[test]
fn exec_unknown_program_on_a_fresh_process() {
    let mut k = boot();
    let bins = binaries(elf_image(0x10_0000, 0x10_0000, b"x", 0x1000));
    let mut p = empty_process();
    assert_eq!(k_exec(&mut k.mem, &k.layout, &bins, "/bin/sh", &mut p), Err(ExecError::ProgramNotFound));
    assert_eq!(p.page_table, 0);
    assert_eq!(p.trap_frame, 0);
    assert_eq!(p.state, ProcessState::UNUSED);
}

#[test]
fn exec_current_needs_a_process() {
    let mut k = boot();
    let bins = binaries(elf_image(0x10_0000, 0x10_0000, b"x", 0x1000));
    let cpu = new_cpu();
    assert_eq!(
        exec_current(&mut k.mem, &k.layout, &bins, &mut k.table, &cpu, "help"),
        Err(ExecCallError::NoProcess)
    );
}

#[test]
fn exec_current_replaces_the_running_program() {
    let mut k = boot();
    let bins = binaries(elf_image(0x10_0000, 0x10_0000, b"x", 0x1000));
    k.cpu.process = Some(0);
    let before = k.table.procs[0];
    let tf = exec_current(&mut k.mem, &k.layout, &bins, &mut k.table, &k.cpu, "help").unwrap();
    assert_eq!(tf, before.trap_frame);
    assert_ne!(k.table.procs[0].page_table, before.page_table);
    assert_eq!(k.table.procs[0].pid, before.pid);
    assert_eq!(
        exec_current(&mut k.mem, &k.layout, &bins, &mut k.table, &k.cpu, "cat"),
        Err(ExecCallError::Exec(ExecError::ProgramNotFound))
    );
}

#[test]
fn fresh_memory_is_empty() {
    let mut mem = PhysMem::new(RAM_END as u64);
    assert!(k_alloc(&mut mem).is_none());
    let l = KernelLayout { kernel_page_table: 0, etext: ETEXT, trampoline: TRAMPOLINE_PA };
    assert_eq!(l.etext, ETEXT);
}

#[test]
fn boot_without_room_for_the_kernel_tree_hands_back_spent_memory() {
    let f = k_main(RAM_END as u64 - 4 * 4096, ETEXT, TRAMPOLINE_PA, FORKRET).err().unwrap();
    assert_eq!(f.error, BootError::VmInit(MapError::AllocationFailed));
    let mut mem = f.mem;
    assert!(k_alloc(&mut mem).is_none());
}

#[test]
fn kernel_stacks_get_distinct_frames() {
    let mut k = boot();
    let root = k.layout.kernel_page_table;
    let mut frames = Vec::new();
    for i in 0..NUMBER_OF_PROCESS {
        for p in 0..2u64 {
            let f = kvm_translate(&mut k.mem, root, k_stack(i) + p * 4096).unwrap();
            assert_eq!(f % 4096, 0);
            assert!(!frames.contains(&f));
            frames.push(f);
        }
        assert_eq!(kvm_translate(&mut k.mem, root, k_stack(i) - 4096), Err(MapError::WalkFailed));
    }
}

#[test]
fn user_init_without_memory() {
    let mut k = boot();
    while k_alloc(&mut k.mem).is_some() {}
    let before = k.table.procs[1];
    assert_eq!(user_init(&mut k.mem, &mut k.table, &k.layout, FORKRET), Err(AllocProcError::OutOfMemory));
    assert_eq!(k.table.procs[1].state, before.state);
    assert_eq!(k.table.procs[1].pid, before.pid);
}
