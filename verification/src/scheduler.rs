use vstd::prelude::*;
use crate::process::{Context, ProcTable, Process, ProcessState, zero_context};

verus! {

/// What a sleeping process waits for.
#[derive(Copy, Clone, PartialEq, Eq, Structural, Debug)]
pub enum WaitChannel {
    DiskFree,
    DiskBuf(usize),
    PipeRead(usize),
    PipeWrite(usize),
    Child(usize),
}

/// The one CPU's scheduling state.
pub struct Cpu {
    /// Where `schedule` resumes after a process gives up the CPU.
    pub context: Context,
    /// The slot of the process running on this CPU, if any.
    pub process: Option<usize>,
    /// Were interrupts enabled before `push_off`?
    pub intena: i32,
}

/// Why the running process cannot give up the CPU.
#[derive(Debug, Clone, Copy, PartialEq, Eq)]
pub enum SchedError {
    /// No process runs on this CPU.
    NoProcess,
    /// The process is still marked running.
    StillRunning,
}

/// A CPU with no process and a zero context.
pub fn new_cpu() -> (c: Cpu)
    ensures
        c.process is None,
        c.intena == 0,
        c.context.x@ == Seq::new(31, |i: int| 0u64),
        c.context.sp == 0,
{
    Cpu { context: zero_context(), process: None, intena: 0 }
}

/// The slot of the process running on `cpu`.
pub fn my_proc(cpu: &Cpu) -> (r: Option<usize>)
    ensures
        r == cpu.process,
{
    cpu.process
}

/// `p` sleeps on `chan`.
pub open spec fn sleeps_on(p: Process, chan: WaitChannel) -> bool {
    p.state == ProcessState::SLEEPING && p.chan == Some(chan)
}

/// `p` once processes sleeping on `chan` are woken: runnable if it slept on
/// `chan`, else unchanged.
pub open spec fn woken(p: Process, chan: WaitChannel) -> Process {
    if sleeps_on(p, chan) { Process { state: ProcessState::RUNNABLE, ..p } } else { p }
}

/// Makes runnable every process sleeping on `chan`.
pub fn wake_up(table: &mut ProcTable, chan: WaitChannel)
    ensures
        final(table).procs@.len() == old(table).procs@.len(),
        final(table).next_pid == old(table).next_pid,
        forall|i: int| 0 <= i < old(table).procs@.len() ==> #[trigger] final(table).procs@[i] ==
            woken(old(table).procs@[i], chan),
{
    let n = table.procs.len();
    let mut i: usize = 0;
    while i < n
        invariant
            i <= n,
            n == old(table).procs@.len(),
            table.procs@.len() == n,
            table.next_pid == old(table).next_pid,
            forall|j: int| 0 <= j < i ==> #[trigger] table.procs@[j] == woken(old(table).procs@[j], chan),
            forall|j: int| i <= j < n ==> #[trigger] table.procs@[j] == old(table).procs@[j],
        decreases n - i,
    {
        let mut p = table.procs[i];
        let on_chan = match p.chan {
            Some(c) => c == chan,
            None => false,
        };
        if p.state == ProcessState::SLEEPING && on_chan {
            p.state = ProcessState::RUNNABLE;
            table.procs.set(i, p);
        }
        i = i + 1;
    }
}

/// After `wake_up(chan)` no process sleeps on `chan`, and a second
/// `wake_up(chan)` changes nothing.
pub proof fn lemma_wake_up_clears(before: ProcTable, after: ProcTable, chan: WaitChannel)
    requires
        after.procs@.len() == before.procs@.len(),
        forall|i: int| 0 <= i < before.procs@.len() ==> #[trigger] after.procs@[i] == woken(before.procs@[i], chan),
    ensures
        forall|i: int| 0 <= i < after.procs@.len() ==> !sleeps_on(#[trigger] after.procs@[i], chan),
        forall|i: int| 0 <= i < after.procs@.len() ==> #[trigger] woken(after.procs@[i], chan) == after.procs@[i],
{
}

/// Puts `p` to sleep on `chan`; the caller then gives up the CPU.
pub fn sleep_begin(p: &mut Process, chan: WaitChannel)
    ensures
        *final(p) == (Process { chan: Some(chan), state: ProcessState::SLEEPING, ..*old(p) }),
{
    p.chan = Some(chan);
    p.state = ProcessState::SLEEPING;
}

/// Back from sleep: `p` no longer waits on a channel.
pub fn sleep_end(p: &mut Process)
    ensures
        *final(p) == (Process { chan: None, ..*old(p) }),
{
    p.chan = None;
}

/// A process that went to sleep on `chan` is made runnable by a wake-up on
/// `chan`, and keeps sleeping through a wake-up on any other channel.
pub proof fn lemma_sleep_then_wake(p: Process, chan: WaitChannel, other: WaitChannel)
    requires
        other != chan,
    ensures
        woken(Process { chan: Some(chan), state: ProcessState::SLEEPING, ..p }, chan)
            == (Process { chan: Some(chan), state: ProcessState::RUNNABLE, ..p }),
        woken(Process { chan: Some(chan), state: ProcessState::SLEEPING, ..p }, other)
            == (Process { chan: Some(chan), state: ProcessState::SLEEPING, ..p }),
{
}

/// The slot whose context `sched` switches away from: the process running
/// on `cpu`, which must no longer be marked running.
pub fn sched(table: &ProcTable, cpu: &Cpu) -> (r: Result<usize, SchedError>)
    requires
        cpu.process matches Some(i) ==> i < table.procs@.len(),
    ensures
        cpu.process is None ==> r == Err::<usize, SchedError>(SchedError::NoProcess),
        cpu.process matches Some(i) ==> r == if table.procs@[i as int].state == ProcessState::RUNNING {
            Err::<usize, SchedError>(SchedError::StillRunning)
        } else {
            Ok::<usize, SchedError>(i)
        },
{
    match cpu.process {
        None => Err(SchedError::NoProcess),
        Some(i) => {
            if table.procs[i].state == ProcessState::RUNNING {
                Err(SchedError::StillRunning)
            } else {
                Ok(i)
            }
        },
    }
}

/// One step of the scheduler's scan: the first runnable slot at or after
/// `from` is marked running and becomes `cpu`'s process; the caller then
/// switches to it.
pub fn schedule_pick(table: &mut ProcTable, cpu: &mut Cpu, from: usize) -> (r: Option<usize>)
    ensures
        final(table).procs@.len() == old(table).procs@.len(),
        final(table).next_pid == old(table).next_pid,
        r is None ==> {
            &&& forall|j: int| from <= j < old(table).procs@.len() ==> #[trigger] old(table).procs@[j].state != ProcessState::RUNNABLE
            &&& *final(table) == *old(table)
            &&& final(cpu).process == old(cpu).process
        },
        r matches Some(i) ==> {
            &&& from <= i < old(table).procs@.len()
            &&& old(table).procs@[i as int].state == ProcessState::RUNNABLE
            &&& forall|j: int| from <= j < i ==> #[trigger] old(table).procs@[j].state != ProcessState::RUNNABLE
            &&& final(table).procs@ == old(table).procs@.update(i as int,
                    Process { state: ProcessState::RUNNING, ..old(table).procs@[i as int] })
            &&& final(cpu).process == Some(i)
        },
        final(cpu).context == old(cpu).context,
        final(cpu).intena == old(cpu).intena,
{
    let n = table.procs.len();
    let mut i: usize = from;
    while i < n
        invariant
            from <= i,
            n == table.procs@.len(),
            *table == *old(table),
            *cpu == *old(cpu),
            forall|j: int| from <= j < i ==> #[trigger] table.procs@[j].state != ProcessState::RUNNABLE,
        decreases n - i,
    {
        if table.procs[i].state == ProcessState::RUNNABLE {
            let mut p = table.procs[i];
            p.state = ProcessState::RUNNING;
            table.procs.set(i, p);
            cpu.process = Some(i);
            assert(p == Process { state: ProcessState::RUNNING, ..old(table).procs@[i as int] });
            assert(table.procs@ == old(table).procs@.update(i as int, p));
            assert(from <= i);
            return Some(i);
        }
        i = i + 1;
    }
    None
}

} // verus!
