use vstd::prelude::*;
use crate::config::{MAX_SYSCALL_NUM, MAX_TASKS, ROOT_PID, HEAP_BASE, DEFAULT_PRIORITY};
use crate::mem::{AddressSpace, PhysMem};
use crate::task::{TaskControlBlock, TaskStatus, TrapContext, zeroed_counts};

verus! {

/// One loadable program image, as the external loader hands it over:
/// a name and the entry point of the built image.  Resolving a name to an
/// image is the loader collaborator's job; this layer only looks the name up.
pub struct Program {
    pub name: Vec<u8>,
    pub entry: usize,
}

/// The process-control state of the whole machine: the task table (indexed
/// by pid; a reclaimed or never-used slot is `None`), the scheduler's ready
/// queue and current-task register, physical memory, the loader's program
/// table, and the clock.
pub struct Kernel {
    pub tasks: Vec<Option<TaskControlBlock>>,
    pub running: Option<usize>,
    pub ready: Vec<usize>,
    pub phys: PhysMem,
    pub programs: Vec<Program>,
    pub now_us: usize,
}

/// A syscall counter after one more invocation; the count sticks at the top
/// of its range rather than wrapping.
pub open spec fn bumped(c: u32) -> u32 {
    if c < u32::MAX { (c + 1) as u32 } else { c }
}

/// `b`'s counter table is `a`'s with exactly the counter of syscall `id`
/// advanced once.
pub open spec fn counts_bumped(a: TaskControlBlock, b: TaskControlBlock, id: int) -> bool {
    b.syscall_times@ == a.syscall_times@.update(id, bumped(a.syscall_times@[id]))
}

/// Every field of the task except the syscall counter table is unchanged.
pub open spec fn same_but_counts(a: TaskControlBlock, b: TaskControlBlock) -> bool {
    &&& b.pid == a.pid
    &&& b.status == a.status
    &&& b.parent == a.parent
    &&& b.children@ == a.children@
    &&& b.space == a.space
    &&& b.trap_cx == a.trap_cx
    &&& b.exit_code == a.exit_code
    &&& b.priority == a.priority
    &&& b.time_us == a.time_us
}

/// The task table is unchanged outside slot `p`.
pub open spec fn tasks_same_except(a: Kernel, b: Kernel, p: int) -> bool {
    &&& b.tasks@.len() == a.tasks@.len()
    &&& forall|q: int| 0 <= q < a.tasks@.len() && q != p
            ==> a.tasks@[q] == b.tasks@[q]
}

/// Scheduler state, program table and clock are unchanged.
pub open spec fn core_same(a: Kernel, b: Kernel) -> bool {
    &&& b.running == a.running
    &&& b.ready@ == a.ready@
    &&& b.programs@ == a.programs@
    &&& b.now_us == a.now_us
}

impl Kernel {
    pub open spec fn n(self) -> int {
        self.tasks@.len() as int
    }

    /// Slot `p` holds a task that has been created and not yet reclaimed.
    pub open spec fn live(self, p: int) -> bool {
        0 <= p < self.n() && self.tasks@[p] is Some
    }

    pub open spec fn tcb(self, p: int) -> TaskControlBlock {
        self.tasks@[p].unwrap()
    }

    /// Pid of the task currently on the processor.
    pub open spec fn cur(self) -> int {
        self.running.unwrap() as int
    }

    /// Task-table invariants: pid 0 is never used, pids fit in `isize`, and
    /// every live task is internally well formed and sits in its own slot.
    pub open spec fn tasks_ok(self) -> bool {
        &&& 2 <= self.n() <= MAX_TASKS
        &&& !self.live(0)
        &&& forall|p: int| #[trigger] self.live(p)
                ==> self.tcb(p).wf(self.phys.n_frames(), self.n())
                    && self.tcb(p).pid == p
    }

    /// The family relationships form a forest rooted at the root task:
    /// a child is live, points back at its parent, and has a larger pid
    /// (pids grow with creation order, so links cannot cycle); a parent
    /// pointer is matched by a `children` entry; no child is listed twice;
    /// and a zombie other than the root has no children left (its orphans
    /// were re-parented to the root when it exited), so reaping it leaves
    /// no dangling parent pointer.
    pub open spec fn tree_ok(self) -> bool {
        &&& self.live(ROOT_PID as int)
        &&& self.tcb(ROOT_PID as int).parent is None
        &&& forall|p: int, k: int|
                self.live(p) && 0 <= k < self.tcb(p).children@.len()
                    ==> {
                        let c = #[trigger] self.tcb(p).children@[k] as int;
                        &&& self.live(c)
                        &&& self.tcb(c).parent == Some(p as usize)
                        &&& p < c
                    }
        &&& forall|c: int|
                self.live(c) && (#[trigger] self.tcb(c).parent) is Some
                    ==> {
                        let p = self.tcb(c).parent.unwrap() as int;
                        &&& self.live(p)
                        &&& self.tcb(p).children@.contains(c as usize)
                    }
        &&& forall|p: int, k1: int, k2: int|
                self.live(p) && 0 <= k1 < k2 < self.tcb(p).children@.len()
                    ==> #[trigger] self.tcb(p).children@[k1]
                        != #[trigger] self.tcb(p).children@[k2]
        &&& forall|c: int|
                #[trigger] self.live(c) && c != ROOT_PID && self.tcb(c).status is Zombie
                    ==> self.tcb(c).children@.len() == 0
    }

    /// Scheduler invariants: the current-task register names the unique
    /// `Running` task; the ready queue holds live `Ready` tasks, each once.
    pub open spec fn sched_ok(self) -> bool {
        &&& (self.running matches Some(c) ==> self.live(c as int) && self.tcb(c as int).status is Running)
        &&& forall|p: int| self.live(p) && (#[trigger] self.tcb(p).status) is Running
                ==> self.running == Some(p as usize)
        &&& forall|k: int| 0 <= k < self.ready@.len()
                ==> self.live(#[trigger] self.ready@[k] as int)
                    && self.tcb(self.ready@[k] as int).status is Ready
        &&& forall|k1: int, k2: int| 0 <= k1 < k2 < self.ready@.len()
                ==> #[trigger] self.ready@[k1] != #[trigger] self.ready@[k2]
    }

    pub open spec fn wf(self) -> bool {
        self.phys.wf() && self.tasks_ok() && self.tree_ok() && self.sched_ok()
    }

    /// There is a task on the processor (every syscall enters from it).
    pub open spec fn has_current(self) -> bool {
        self.running is Some
    }

    /// Bootstrap: physical memory empty, the loader's program table as
    /// given, and a single root task (pid 1) running with an empty address
    /// space.
    pub fn new(programs: Vec<Program>) -> (k: Kernel)
        ensures
            k.wf(),
            k.has_current(),
            k.n() == 2,
            k.cur() == ROOT_PID,
            k.live(ROOT_PID as int),
            k.tcb(ROOT_PID as int).status is Running,
            k.tcb(ROOT_PID as int).children@.len() == 0,
            k.tcb(ROOT_PID as int).space.regions@.len() == 0,
            k.programs@ == programs@,
            k.ready@.len() == 0,
            k.now_us == 0,
            forall|id: int| 0 <= id < MAX_SYSCALL_NUM
                ==> k.tcb(ROOT_PID as int).syscall_times@[id] == 0u32,
    {
        let root = TaskControlBlock {
            pid: ROOT_PID,
            status: TaskStatus::Running,
            parent: None,
            children: Vec::new(),
            space: AddressSpace { regions: Vec::new(), heap_base: HEAP_BASE, brk: HEAP_BASE },
            trap_cx: TrapContext { x10: 0, sepc: 0 },
            exit_code: 0,
            priority: DEFAULT_PRIORITY,
            syscall_times: zeroed_counts(),
            time_us: 0,
        };
        let mut tasks: Vec<Option<TaskControlBlock>> = Vec::new();
        tasks.push(None);
        tasks.push(Some(root));
        let k = Kernel {
            tasks,
            running: Some(ROOT_PID),
            ready: Vec::new(),
            phys: PhysMem { bytes: Vec::new() },
            programs,
            now_us: 0,
        };
        proof {
            assert(k.live(ROOT_PID as int));
            assert(forall|p: int| k.live(p) ==> p == ROOT_PID);
        }
        k
    }

    /// The external clock and the scheduler's accounting: `delta_us`
    /// microseconds pass while the current task runs; its cumulative time
    /// and the wall clock advance (sticking at the top of their range).
    pub fn advance_time(&mut self, delta_us: usize)
        requires
            old(self).wf(),
            old(self).has_current(),
        ensures
            final(self).wf(),
            final(self).has_current(),
            final(self).now_us == if old(self).now_us + delta_us <= usize::MAX
                { (old(self).now_us + delta_us) as usize } else { usize::MAX },
            final(self).tcb(final(self).cur()).time_us
                == if old(self).tcb(old(self).cur()).time_us + delta_us <= usize::MAX
                    { (old(self).tcb(old(self).cur()).time_us + delta_us) as usize }
                    else { usize::MAX },
            final(self).running == old(self).running,
            final(self).ready@ == old(self).ready@,
            final(self).programs@ == old(self).programs@,
            final(self).phys == old(self).phys,
            tasks_same_except(*old(self), *final(self), old(self).cur()),
            same_but_counts_and_time(old(self).tcb(old(self).cur()), final(self).tcb(final(self).cur())),
            final(self).tcb(final(self).cur()).syscall_times@
                == old(self).tcb(old(self).cur()).syscall_times@,
    {
        self.now_us = if self.now_us <= usize::MAX - delta_us {
            self.now_us + delta_us
        } else {
            usize::MAX
        };
        let cur = self.running.unwrap();
        let mut t = self.tcb_take(cur);
        t.time_us = if t.time_us <= usize::MAX - delta_us {
            t.time_us + delta_us
        } else {
            usize::MAX
        };
        self.tcb_put(cur, t);
        proof {
            lemma_wf_local_update(*old(self), *self, cur as int);
        }
    }

    /// Move the task in slot `p` out of the table (its slot becomes `None`
    /// until it is put back or reclaimed).
    pub fn tcb_take(&mut self, p: usize) -> (t: TaskControlBlock)
        requires
            old(self).live(p as int),
        ensures
            t == old(self).tcb(p as int),
            final(self).tasks@ == old(self).tasks@.update(p as int, None::<TaskControlBlock>),
            final(self).running == old(self).running,
            final(self).ready@ == old(self).ready@,
            final(self).phys == old(self).phys,
            final(self).programs@ == old(self).programs@,
            final(self).now_us == old(self).now_us,
    {
        let slot = &mut self.tasks[p];
        let t = slot.take();
        t.unwrap()
    }

    /// Put a task back into slot `p`.
    pub fn tcb_put(&mut self, p: usize, t: TaskControlBlock)
        requires
            p < old(self).tasks@.len(),
        ensures
            final(self).tasks@ == old(self).tasks@.update(p as int, Some(t)),
            final(self).running == old(self).running,
            final(self).ready@ == old(self).ready@,
            final(self).phys == old(self).phys,
            final(self).programs@ == old(self).programs@,
            final(self).now_us == old(self).now_us,
    {
        self.tasks[p] = Some(t);
    }

    /// Borrow the task in slot `p`.
    pub fn tcb_ref(&self, p: usize) -> (t: &TaskControlBlock)
        requires
            self.live(p as int),
        ensures
            *t == self.tcb(p as int),
    {
        self.tasks[p].as_ref().unwrap()
    }

    /// Step (1) and (2) of every syscall: resolve the current task and
    /// advance its counter for syscall `id`, exactly once whatever branch
    /// the operation then takes.
    pub fn record_syscall(&mut self, id: usize) -> (cur: usize)
        requires
            old(self).wf(),
            old(self).has_current(),
            id < MAX_SYSCALL_NUM,
        ensures
            final(self).wf(),
            final(self).has_current(),
            cur as int == old(self).cur(),
            final(self).running == old(self).running,
            final(self).ready@ == old(self).ready@,
            final(self).phys == old(self).phys,
            final(self).programs@ == old(self).programs@,
            final(self).now_us == old(self).now_us,
            tasks_same_except(*old(self), *final(self), cur as int),
            final(self).live(cur as int),
            counts_bumped(old(self).tcb(cur as int), final(self).tcb(cur as int), id as int),
            same_but_counts(old(self).tcb(cur as int), final(self).tcb(cur as int)),
    {
        let cur = self.running.unwrap();
        let mut t = self.tcb_take(cur);
        let c = t.syscall_times[id];
        let nc = if c < u32::MAX { c + 1 } else { c };
        t.syscall_times[id] = nc;
        self.tcb_put(cur, t);
        proof {
            lemma_wf_local_update(*old(self), *self, cur as int);
        }
        cur
    }
}

/// Some program in the table carries this name.
pub open spec fn has_prog(progs: Seq<Program>, name: Seq<u8>) -> bool {
    exists|i: int| 0 <= i < progs.len() && (#[trigger] progs[i]).name@ == name
}

impl Kernel {
    /// Resolve a program name against the loader's table; the first match
    /// wins.
    pub fn find_program(&self, name: &Vec<u8>) -> (r: Option<usize>)
        ensures
            match r {
                Some(i) => i < self.programs@.len()
                    && self.programs@[i as int].name@ == name@
                    && forall|j: int| 0 <= j < i ==> (#[trigger] self.programs@[j]).name@ != name@,
                None => !has_prog(self.programs@, name@),
            },
    {
        let n = self.programs.len();
        let mut i: usize = 0;
        while i < n
            invariant
                0 <= i <= n,
                n == self.programs@.len(),
                forall|j: int| 0 <= j < i ==> (#[trigger] self.programs@[j]).name@ != name@,
            decreases n - i,
        {
            if bytes_eq(&self.programs[i].name, name) {
                return Some(i);
            }
            i += 1;
        }
        None
    }
}

/// Byte-for-byte equality of two byte strings.
pub fn bytes_eq(a: &Vec<u8>, b: &Vec<u8>) -> (r: bool)
    ensures
        r == (a@ == b@),
{
    if a.len() != b.len() {
        return false;
    }
    let n = a.len();
    let mut i: usize = 0;
    while i < n
        invariant
            0 <= i <= n,
            n == a@.len() == b@.len(),
            forall|j: int| 0 <= j < i ==> a@[j] == b@[j],
        decreases n - i,
    {
        if a[i] != b[i] {
            return false;
        }
        i += 1;
    }
    proof {
        assert(a@ =~= b@);
    }
    true
}

/// The waitpid selector: -1 matches any child, otherwise the exact pid.
pub open spec fn sel_match(pid: int, c: int) -> bool {
    pid == -1 || pid == c
}

/// Task `p` has a child the selector matches.
pub open spec fn has_matching_child(k: Kernel, p: int, pid: int) -> bool {
    exists|i: int| 0 <= i < k.tcb(p).children@.len()
        && sel_match(pid, #[trigger] k.tcb(p).children@[i] as int)
}

/// Task `p` has a matching child that has already exited.
pub open spec fn has_matching_zombie(k: Kernel, p: int, pid: int) -> bool {
    exists|i: int| 0 <= i < k.tcb(p).children@.len()
        && sel_match(pid, #[trigger] k.tcb(p).children@[i] as int)
        && k.tcb(k.tcb(p).children@[i] as int).status is Zombie
}

/// Linking one fresh `Ready` task under the running parent (fork or spawn)
/// preserves the kernel invariant: the new pid is the next slot, it appears
/// once in the parent's children and once at the back of the ready queue.
#[verifier::spinoff_prover]
#[verifier::rlimit(30)]
pub proof fn lemma_wf_new_child(a: Kernel, b: Kernel, p: int, c: int)
    requires
        a.wf(),
        a.running == Some((p as usize)),
        a.live(p),
        c == a.n(),
        b.n() == a.n() + 1,
        b.n() <= MAX_TASKS,
        forall|q: int| 0 <= q < a.n() && q != p ==> b.tasks@[q] == a.tasks@[q],
        b.live(p),
        b.live(c),
        b.tcb(p).pid == a.tcb(p).pid,
        b.tcb(p).status == a.tcb(p).status,
        b.tcb(p).parent == a.tcb(p).parent,
        b.tcb(p).children@ == a.tcb(p).children@.push(c as usize),
        b.tcb(p).space.wf(b.phys.n_frames()),
        b.tcb(p).syscall_times@.len() == MAX_SYSCALL_NUM,
        b.tcb(p).priority >= 2,
        b.tcb(c).pid == c,
        b.tcb(c).status is Ready,
        b.tcb(c).parent == Some((p as usize)),
        b.tcb(c).children@.len() == 0,
        b.tcb(c).space.wf(b.phys.n_frames()),
        b.tcb(c).syscall_times@.len() == MAX_SYSCALL_NUM,
        b.tcb(c).priority >= 2,
        b.running == a.running,
        b.ready@ == a.ready@.push(c as usize),
        b.phys.wf(),
        b.phys.n_frames() >= a.phys.n_frames(),
    ensures
        b.wf(),
{
    assert(forall|q: int| 0 <= q < a.n() ==> (a.live(q) <==> b.live(q)));
    assert(!b.live(0));
    assert forall|q: int| #[trigger] b.live(q)
        implies b.tcb(q).wf(b.phys.n_frames(), b.n()) && b.tcb(q).pid == q by {
        if q < a.n() {
            assert(a.live(q));
            assert(a.tcb(q).wf(a.phys.n_frames(), a.n()));
            if q != p {
                assert(b.tcb(q) == a.tcb(q));
                a.tcb(q).space.lemma_wf_monotone(a.phys.n_frames(), b.phys.n_frames());
            }
        }
    }
    assert(b.tasks_ok());
    assert(b.live(ROOT_PID as int) && b.tcb(ROOT_PID as int).parent is None) by {
        assert(a.live(ROOT_PID as int));
        assert(ROOT_PID != c);
        if ROOT_PID as int == p {
            assert(b.tcb(p).parent == a.tcb(p).parent);
        }
    }
    assert forall|q: int, k: int|
        b.live(q) && 0 <= k < b.tcb(q).children@.len()
        implies {
            let e = #[trigger] b.tcb(q).children@[k] as int;
            b.live(e) && b.tcb(e).parent == Some(q as usize) && q < e
        } by {
        if q == c {
            // no children yet
        } else if q == p && k == a.tcb(p).children@.len() {
            assert(b.tcb(q).children@[k] == c as usize);
        } else {
            assert(a.live(q));
            let e = a.tcb(q).children@[k] as int;
            assert(b.tcb(q).children@[k] == a.tcb(q).children@[k]);
            assert(a.live(e) && a.tcb(e).parent == Some(q as usize) && q < e);
            assert(e < a.n());
            if e != p {
                assert(b.tcb(e) == a.tcb(e));
            }
        }
    }
    assert forall|d: int|
        b.live(d) && (#[trigger] b.tcb(d).parent) is Some
        implies {
            let q = b.tcb(d).parent.unwrap() as int;
            b.live(q) && b.tcb(q).children@.contains(d as usize)
        } by {
        if d == c {
            assert(b.tcb(p).children@[a.tcb(p).children@.len() as int] == c as usize);
            assert(b.tcb(p).children@.contains(c as usize));
        } else {
            assert(a.live(d) && b.tcb(d).parent == a.tcb(d).parent);
            let q = a.tcb(d).parent.unwrap() as int;
            assert(a.live(q) && a.tcb(q).children@.contains(d as usize));
            if q == p {
                let k = choose|k: int| 0 <= k < a.tcb(p).children@.len()
                    && a.tcb(p).children@[k] == d as usize;
                assert(b.tcb(p).children@[k] == d as usize);
                assert(b.tcb(p).children@.contains(d as usize));
            } else {
                assert(b.tcb(q).children@ == a.tcb(q).children@);
            }
        }
    }
    assert forall|q: int, k1: int, k2: int|
        b.live(q) && 0 <= k1 < k2 < b.tcb(q).children@.len()
        implies #[trigger] b.tcb(q).children@[k1] != #[trigger] b.tcb(q).children@[k2] by {
        if q == p {
            if k2 == a.tcb(p).children@.len() {
                assert(b.tcb(q).children@[k2] == c as usize);
                assert(a.tcb(p).children@[k1] < a.n());
            } else {
                assert(a.tcb(p).children@[k1] != a.tcb(p).children@[k2]);
            }
        } else if q != c {
            assert(a.tcb(q).children@[k1] != a.tcb(q).children@[k2]);
        }
    }
    assert forall|d: int|
        #[trigger] b.live(d) && d != ROOT_PID && b.tcb(d).status is Zombie
        implies b.tcb(d).children@.len() == 0 by {
        if d == c {
            assert(!(b.tcb(c).status is Zombie));
        } else if d == p {
            assert(a.tcb(p).status == b.tcb(p).status);
            assert(a.tcb(p).children@.len() == 0);
            assert(b.tcb(p).children@.len() > 0);
            assert(false);
        } else {
            assert(a.tcb(d).status is Zombie);
        }
    }
    assert(b.tree_ok()) by {
        assert(a.tcb(p).status is Running);
        assert(!(a.tcb(p).status is Zombie));
    }
    assert forall|q: int| b.live(q) && (#[trigger] b.tcb(q).status) is Running
        implies b.running == Some(q as usize) by {
        if q == c {
            assert(false);
        } else if q != p {
            assert(a.tcb(q).status is Running);
        }
    }
    assert forall|k: int| 0 <= k < b.ready@.len()
        implies b.live(#[trigger] b.ready@[k] as int)
            && b.tcb(b.ready@[k] as int).status is Ready by {
        if k < a.ready@.len() {
            let e = a.ready@[k] as int;
            assert(b.ready@[k] == a.ready@[k]);
            assert(a.live(e) && a.tcb(e).status is Ready);
            if e == p {
                assert(a.tcb(p).status is Running);
                assert(false);
            }
            assert(b.tcb(e) == a.tcb(e));
        } else {
            assert(b.ready@[k] == c as usize);
        }
    }
    assert forall|k1: int, k2: int| 0 <= k1 < k2 < b.ready@.len()
        implies #[trigger] b.ready@[k1] != #[trigger] b.ready@[k2] by {
        if k2 < a.ready@.len() {
            assert(a.ready@[k1] != a.ready@[k2]);
        } else {
            assert(b.ready@[k2] == c as usize);
            assert(a.live(a.ready@[k1] as int));
            assert(a.ready@[k1] < a.n());
        }
    }
    assert(b.sched_ok());
}

/// Reaping one zombie child -- removing it from the running parent's
/// children and clearing its slot, as a single step -- preserves the kernel
/// invariant: the tree guarantees the reaped slot was the last reference
/// (it sat in exactly one children list, in no other parent pointer since a
/// non-root zombie has no children of its own, and in neither the ready
/// queue nor the running register).
#[verifier::spinoff_prover]
#[verifier::rlimit(30)]
pub proof fn lemma_wf_reap(a: Kernel, b: Kernel, p: int, c: int, i: int)
    requires
        a.wf(),
        a.running == Some((p as usize)),
        a.live(p),
        a.live(c),
        0 <= i < a.tcb(p).children@.len(),
        a.tcb(p).children@[i] == c as usize,
        a.tcb(c).status is Zombie,
        b.n() == a.n(),
        forall|q: int| 0 <= q < a.n() && q != p && q != c ==> b.tasks@[q] == a.tasks@[q],
        b.tasks@[c] is None,
        b.live(p),
        b.tcb(p).children@ == a.tcb(p).children@.remove(i),
        b.tcb(p).pid == a.tcb(p).pid,
        b.tcb(p).status == a.tcb(p).status,
        b.tcb(p).parent == a.tcb(p).parent,
        b.tcb(p).space.wf(b.phys.n_frames()),
        b.tcb(p).syscall_times@.len() == MAX_SYSCALL_NUM,
        b.tcb(p).priority >= 2,
        b.running == a.running,
        b.ready@ == a.ready@,
        b.phys.wf(),
        b.phys.n_frames() >= a.phys.n_frames(),
    ensures
        b.wf(),
{
    // the parent links give p < c, so the child is neither slot 0, the
    // root, nor the parent itself
    assert(a.live(c) && a.tcb(c).parent == Some((p as usize)) && p < c);
    assert(c != ROOT_PID as int);
    assert(c != p);
    let ch = a.tcb(p).children@;
    assert(forall|k: int| 0 <= k < b.tcb(p).children@.len()
        ==> #[trigger] b.tcb(p).children@[k] == (if k < i { ch[k] } else { ch[k + 1] }));
    // no other occurrence of c survives in p's list (no duplicates)
    assert forall|k: int| 0 <= k < b.tcb(p).children@.len()
        implies #[trigger] b.tcb(p).children@[k] != c as usize by {
        if k < i {
            assert(ch[k] != ch[i]);
        } else {
            assert(ch[i] != ch[k + 1]);
        }
    }
    assert forall|q: int| #[trigger] b.live(q)
        implies b.tcb(q).wf(b.phys.n_frames(), b.n()) && b.tcb(q).pid == q by {
        assert(a.live(q));
        assert(a.tcb(q).wf(a.phys.n_frames(), a.n()));
        if q != p {
            assert(b.tcb(q) == a.tcb(q));
            a.tcb(q).space.lemma_wf_monotone(a.phys.n_frames(), b.phys.n_frames());
        }
    }
    assert(b.tasks_ok());
    assert(b.live(ROOT_PID as int) && b.tcb(ROOT_PID as int).parent is None) by {
        if ROOT_PID as int == p {
            assert(b.tcb(p).parent == a.tcb(p).parent);
        }
    }
    assert forall|q: int, k: int|
        b.live(q) && 0 <= k < b.tcb(q).children@.len()
        implies {
            let e = #[trigger] b.tcb(q).children@[k] as int;
            b.live(e) && b.tcb(e).parent == Some(q as usize) && q < e
        } by {
        assert(a.live(q));
        let e = b.tcb(q).children@[k] as int;
        if q == p {
            let e0 = if k < i { ch[k] } else { ch[k + 1] };
            assert(b.tcb(p).children@[k] == e0);
            assert(a.live(e0 as int) && a.tcb(e0 as int).parent == Some((p as usize)) && p < e0 as int);
            assert(e != c);
            assert(b.tcb(e) == a.tcb(e));
        } else {
            assert(b.tcb(q).children@ == a.tcb(q).children@);
            assert(a.live(e) && a.tcb(e).parent == Some((q as usize)) && q < e);
            // e cannot be the reaped child: its parent pointer named p
            if e == c {
                assert(a.tcb(c).parent == Some((q as usize)));
                assert(q == p);
                assert(false);
            }
            if e != p {
                assert(b.tcb(e) == a.tcb(e));
            }
        }
    }
    assert forall|d: int|
        b.live(d) && (#[trigger] b.tcb(d).parent) is Some
        implies {
            let q = b.tcb(d).parent.unwrap() as int;
            b.live(q) && b.tcb(q).children@.contains(d as usize)
        } by {
        assert(a.live(d) && b.tcb(d).parent == a.tcb(d).parent);
        let q = a.tcb(d).parent.unwrap() as int;
        assert(a.live(q) && a.tcb(q).children@.contains(d as usize));
        // the reaped child has no children left (it exited as a non-root
        // zombie), so no live parent pointer names it
        if q == c {
            assert(a.tcb(c).children@.len() == 0);
            assert(false);
        }
        if q == p {
            assert(d != c);
            let j = choose|j: int| 0 <= j < ch.len() && ch[j] == d as usize;
            if j < i {
                assert(b.tcb(p).children@[j] == d as usize);
            } else {
                assert(j != i);
                assert(b.tcb(p).children@[j - 1] == d as usize);
            }
            assert(b.tcb(p).children@.contains(d as usize));
        } else {
            assert(b.tcb(q).children@ == a.tcb(q).children@);
        }
    }
    assert forall|q: int, k1: int, k2: int|
        b.live(q) && 0 <= k1 < k2 < b.tcb(q).children@.len()
        implies #[trigger] b.tcb(q).children@[k1] != #[trigger] b.tcb(q).children@[k2] by {
        assert(a.live(q));
        if q == p {
            let e1 = if k1 < i { ch[k1] } else { ch[k1 + 1] };
            let e2 = if k2 < i { ch[k2] } else { ch[k2 + 1] };
            assert(b.tcb(p).children@[k1] == e1 && b.tcb(p).children@[k2] == e2);
            if k1 < i && k2 < i {
                assert(ch[k1] != ch[k2]);
            } else if k1 < i {
                assert(ch[k1] != ch[k2 + 1]);
            } else {
                assert(ch[k1 + 1] != ch[k2 + 1]);
            }
        } else {
            assert(b.tcb(q).children@ == a.tcb(q).children@);
            assert(a.tcb(q).children@[k1] != a.tcb(q).children@[k2]);
        }
    }
    assert forall|d: int|
        #[trigger] b.live(d) && d != ROOT_PID && b.tcb(d).status is Zombie
        implies b.tcb(d).children@.len() == 0 by {
        assert(a.live(d) && a.tcb(d).status == b.tcb(d).status);
        if d == p {
            assert(a.tcb(p).status is Running);
            assert(false);
        }
        assert(b.tcb(d).children@ == a.tcb(d).children@);
    }
    assert(b.tree_ok());
    assert forall|q: int| b.live(q) && (#[trigger] b.tcb(q).status) is Running
        implies b.running == Some(q as usize) by {
        assert(a.live(q) && a.tcb(q).status is Running);
    }
    assert forall|k: int| 0 <= k < b.ready@.len()
        implies b.live(#[trigger] b.ready@[k] as int)
            && b.tcb(b.ready@[k] as int).status is Ready by {
        let e = a.ready@[k] as int;
        assert(a.live(e) && a.tcb(e).status is Ready);
        // the reaped child was a zombie and so never sat in the ready queue
        if e == c {
            assert(a.tcb(c).status is Zombie);
            assert(false);
        }
        if e != p {
            assert(b.tcb(e) == a.tcb(e));
        }
    }
    assert(b.sched_ok());
}

/// Every field of the task except counters and cumulative time is unchanged.
pub open spec fn same_but_counts_and_time(a: TaskControlBlock, b: TaskControlBlock) -> bool {
    &&& b.pid == a.pid
    &&& b.status == a.status
    &&& b.parent == a.parent
    &&& b.children@ == a.children@
    &&& b.space == a.space
    &&& b.trap_cx == a.trap_cx
    &&& b.exit_code == a.exit_code
    &&& b.priority == a.priority
}

/// Changing one live task without touching its identity, status, family
/// links, counter-table length or priority floor, and without shrinking
/// physical memory, preserves the kernel invariant.
pub proof fn lemma_wf_local_update(a: Kernel, b: Kernel, p: int)
    requires
        a.wf(),
        a.live(p),
        b.live(p),
        tasks_same_except(a, b, p),
        b.running == a.running,
        b.ready@ == a.ready@,
        b.phys.wf(),
        b.phys.n_frames() >= a.phys.n_frames(),
        b.tcb(p).pid == a.tcb(p).pid,
        b.tcb(p).status == a.tcb(p).status,
        b.tcb(p).parent == a.tcb(p).parent,
        b.tcb(p).children@ == a.tcb(p).children@,
        b.tcb(p).space.wf(b.phys.n_frames()),
        b.tcb(p).syscall_times@.len() == MAX_SYSCALL_NUM,
        b.tcb(p).priority >= 2,
    ensures
        b.wf(),
{
    assert(b.n() == a.n());
    assert(forall|q: int| a.live(q) <==> b.live(q));
    assert forall|q: int| #[trigger] b.live(q)
        implies b.tcb(q).wf(b.phys.n_frames(), b.n()) && b.tcb(q).pid == q by {
        assert(a.live(q));
        assert(a.tcb(q).wf(a.phys.n_frames(), a.n()));
        if q != p {
            assert(b.tcb(q) == a.tcb(q));
            a.tcb(q).space.lemma_wf_monotone(a.phys.n_frames(), b.phys.n_frames());
        }
    }
    assert(b.tasks_ok());
    assert forall|q: int, k: int|
        b.live(q) && 0 <= k < b.tcb(q).children@.len()
        implies {
            let c = #[trigger] b.tcb(q).children@[k] as int;
            b.live(c) && b.tcb(c).parent == Some(q as usize) && q < c
        } by {
        assert(a.live(q) && a.tcb(q).children@ == b.tcb(q).children@);
        let c = a.tcb(q).children@[k] as int;
        assert(a.live(c) && a.tcb(c).parent == Some(q as usize) && q < c);
        assert(b.tcb(c).parent == a.tcb(c).parent);
    }
    assert forall|c: int|
        b.live(c) && (#[trigger] b.tcb(c).parent) is Some
        implies {
            let q = b.tcb(c).parent.unwrap() as int;
            b.live(q) && b.tcb(q).children@.contains(c as usize)
        } by {
        assert(a.live(c) && a.tcb(c).parent == b.tcb(c).parent);
        let q = a.tcb(c).parent.unwrap() as int;
        assert(a.live(q) && a.tcb(q).children@.contains(c as usize));
        assert(b.tcb(q).children@ == a.tcb(q).children@);
    }
    assert forall|q: int, k1: int, k2: int|
        b.live(q) && 0 <= k1 < k2 < b.tcb(q).children@.len()
        implies #[trigger] b.tcb(q).children@[k1] != #[trigger] b.tcb(q).children@[k2] by {
        assert(a.live(q) && a.tcb(q).children@ == b.tcb(q).children@);
        assert(a.tcb(q).children@[k1] != a.tcb(q).children@[k2]);
    }
    assert forall|c: int|
        #[trigger] b.live(c) && c != ROOT_PID && b.tcb(c).status is Zombie
        implies b.tcb(c).children@.len() == 0 by {
        assert(a.live(c) && a.tcb(c).status == b.tcb(c).status);
        assert(a.tcb(c).children@ == b.tcb(c).children@);
    }
    assert(b.tree_ok());
    assert forall|q: int| b.live(q) && (#[trigger] b.tcb(q).status) is Running
        implies b.running == Some(q as usize) by {
        assert(a.live(q) && a.tcb(q).status is Running);
    }
    assert forall|k: int| 0 <= k < b.ready@.len()
        implies b.live(#[trigger] b.ready@[k] as int)
            && b.tcb(b.ready@[k] as int).status is Ready by {
        assert(a.live(a.ready@[k] as int));
        assert(a.tcb(a.ready@[k] as int).status is Ready);
    }
    assert(b.sched_ok());
}

} // verus!
