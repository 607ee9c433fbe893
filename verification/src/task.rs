use vstd::prelude::*;
use crate::config::{MAX_SYSCALL_NUM, TIME_VAL_BYTES, TASK_INFO_BYTES};
use crate::codec::{u32_le, u64_le, push_u32_le, push_u64_le};
use crate::mem::AddressSpace;

verus! {

/// Where a task stands in its life cycle.  At most one task is `Running` on
/// this single-core machine; a `Zombie` has exited but has not been reaped.
#[derive(Clone, Copy, PartialEq, Eq, Structural, Debug)]
pub enum TaskStatus {
    Ready,
    Running,
    Zombie,
}

/// The saved user-mode register state this layer cares about: the
/// return-value register (x10, written so the child of a fork observes 0)
/// and the user program counter restored on return.
#[derive(Clone, Copy, PartialEq, Eq, Structural, Debug)]
pub struct TrapContext {
    pub x10: usize,
    pub sepc: usize,
}

/// Wall-clock time record copied verbatim into user memory: two native
/// words, seconds and microseconds, little endian.
#[derive(Clone, Copy, PartialEq, Eq, Structural, Debug)]
pub struct TimeVal {
    pub sec: usize,
    pub usec: usize,
}

/// Per-task report copied verbatim into user memory: life-cycle status, the
/// per-syscall invocation counters, and cumulative running time.
pub struct TaskInfo {
    pub status: TaskStatus,
    pub syscall_times: Vec<u32>,
    pub time: usize,
}

/// The kernel's record for one task: identity, life-cycle state, family
/// links (owning `children`, non-owning `parent` back-reference by pid),
/// its exclusively owned address space, saved registers, exit code,
/// scheduling priority, and per-syscall accounting.
pub struct TaskControlBlock {
    pub pid: usize,
    pub status: TaskStatus,
    pub parent: Option<usize>,
    pub children: Vec<usize>,
    pub space: AddressSpace,
    pub trap_cx: TrapContext,
    pub exit_code: i32,
    pub priority: isize,
    pub syscall_times: Vec<u32>,
    pub time_us: usize,
}

impl TaskControlBlock {
    pub open spec fn wf(self, n_frames: int, n_tasks: int) -> bool {
        &&& self.space.wf(n_frames)
        &&& self.syscall_times@.len() == MAX_SYSCALL_NUM
        &&& self.priority >= 2
        &&& forall|k: int| 0 <= k < self.children@.len()
                ==> 0 < #[trigger] self.children@[k] < n_tasks
        &&& (self.parent matches Some(p) ==> 0 < p < n_tasks)
    }
}

/// The tag byte the fixed binary layout uses for a status.
pub open spec fn status_code(s: TaskStatus) -> u8 {
    match s {
        TaskStatus::Ready => 0,
        TaskStatus::Running => 1,
        TaskStatus::Zombie => 2,
    }
}

pub fn status_code_of(s: TaskStatus) -> (c: u8)
    ensures
        c == status_code(s),
{
    match s {
        TaskStatus::Ready => 0,
        TaskStatus::Running => 1,
        TaskStatus::Zombie => 2,
    }
}

/// The syscall counter table as consecutive little-endian 32-bit words.
pub open spec fn counts_le(s: Seq<u32>) -> Seq<u8>
    decreases s.len(),
{
    if s.len() == 0 {
        Seq::empty()
    } else {
        counts_le(s.drop_last()) + u32_le(s.last())
    }
}

pub proof fn lemma_counts_le_len(s: Seq<u32>)
    ensures
        counts_le(s).len() == 4 * s.len(),
    decreases s.len(),
{
    if s.len() > 0 {
        lemma_counts_le_len(s.drop_last());
    }
}

/// Fixed binary layout of `TimeVal`: seconds then microseconds, eight
/// little-endian bytes each.
pub open spec fn time_val_bytes(sec: usize, usec: usize) -> Seq<u8> {
    u64_le(sec as u64) + u64_le(usec as u64)
}

/// Fixed binary layout of `TaskInfo`: the status tag widened to one native
/// word (keeping the counter table and the time field word-aligned), the
/// counter table, then the cumulative time word, all little endian.
pub open spec fn task_info_bytes(status: TaskStatus, counts: Seq<u32>, time: usize) -> Seq<u8> {
    u64_le(status_code(status) as u64) + counts_le(counts) + u64_le(time as u64)
}

/// Serialize a `TimeVal` into the byte image written to user memory.
pub fn encode_time_val(tv: &TimeVal) -> (out: Vec<u8>)
    ensures
        out@ == time_val_bytes(tv.sec, tv.usec),
        out@.len() == TIME_VAL_BYTES,
{
    let mut out: Vec<u8> = Vec::new();
    push_u64_le(&mut out, tv.sec as u64);
    push_u64_le(&mut out, tv.usec as u64);
    proof {
        assert(out@ =~= time_val_bytes(tv.sec, tv.usec));
    }
    out
}

/// Serialize a `TaskInfo` into the byte image written to user memory.
#[verifier::loop_isolation(false)]
pub fn encode_task_info(ti: &TaskInfo) -> (out: Vec<u8>)
    requires
        ti.syscall_times@.len() == MAX_SYSCALL_NUM,
    ensures
        out@ == task_info_bytes(ti.status, ti.syscall_times@, ti.time),
        out@.len() == TASK_INFO_BYTES,
{
    let mut out: Vec<u8> = Vec::new();
    push_u64_le(&mut out, status_code_of(ti.status) as u64);
    proof {
        assert(out@ =~= u64_le(status_code(ti.status) as u64)
            + counts_le(ti.syscall_times@.take(0)));
    }
    let n = ti.syscall_times.len();
    let mut k: usize = 0;
    while k < n
        invariant
            0 <= k <= n,
            out@ == u64_le(status_code(ti.status) as u64)
                + counts_le(ti.syscall_times@.take(k as int)),
        decreases n - k,
    {
        push_u32_le(&mut out, ti.syscall_times[k]);
        proof {
            let s = ti.syscall_times@;
            assert(s.take(k + 1).drop_last() =~= s.take(k as int));
            assert(s.take(k + 1).last() == s[k as int]);
            assert(counts_le(s.take(k + 1))
                == counts_le(s.take(k as int)) + u32_le(s[k as int]));
            assert(out@ =~= u64_le(status_code(ti.status) as u64) + counts_le(s.take(k + 1)));
        }
        k += 1;
    }
    proof {
        assert(ti.syscall_times@.take(n as int) =~= ti.syscall_times@);
    }
    push_u64_le(&mut out, ti.time as u64);
    proof {
        assert(out@ =~= task_info_bytes(ti.status, ti.syscall_times@, ti.time));
        lemma_counts_le_len(ti.syscall_times@);
    }
    out
}

/// An independent copy of a syscall counter table.
pub fn copy_counts(src: &Vec<u32>) -> (out: Vec<u32>)
    ensures
        out@ == src@,
{
    let mut out: Vec<u32> = Vec::new();
    let n = src.len();
    let mut k: usize = 0;
    while k < n
        invariant
            0 <= k <= n,
            n == src@.len(),
            out@ == src@.take(k as int),
        decreases n - k,
    {
        out.push(src[k]);
        proof {
            assert(out@ =~= src@.take(k + 1));
        }
        k += 1;
    }
    proof {
        assert(src@.take(n as int) =~= src@);
    }
    out
}

/// A fresh, all-zero syscall counter table.
pub fn zeroed_counts() -> (out: Vec<u32>)
    ensures
        out@.len() == MAX_SYSCALL_NUM,
        forall|k: int| 0 <= k < out@.len() ==> out@[k] == 0u32,
{
    let mut out: Vec<u32> = Vec::new();
    let mut k: usize = 0;
    while k < MAX_SYSCALL_NUM
        invariant
            out@.len() == k,
            0 <= k <= MAX_SYSCALL_NUM,
            forall|q: int| 0 <= q < k ==> out@[q] == 0u32,
        decreases MAX_SYSCALL_NUM - k,
    {
        out.push(0);
        k += 1;
    }
    out
}

} // verus!
