use vstd::prelude::*;
use crate::config::{
    MAX_SYSCALL_NUM, MAX_TASKS, TIME_VAL_BYTES, TASK_INFO_BYTES, PAGE_SIZE, HEAP_BASE,
    DEFAULT_PRIORITY,
    SYSCALL_GETPID, SYSCALL_YIELD, SYSCALL_SET_PRIORITY, SYSCALL_MMAP, SYSCALL_MUNMAP,
    SYSCALL_SBRK, SYSCALL_GET_TIME, SYSCALL_TASK_INFO, SYSCALL_FORK, SYSCALL_EXEC,
    SYSCALL_SPAWN,
};
use crate::kernel::{
    Kernel, counts_bumped, same_but_counts, same_but_counts_and_time, tasks_same_except,
    core_same, lemma_wf_local_update, lemma_wf_new_child, has_prog,
};
use crate::mem::{AddressSpace, remove_range, mmap_post};
use crate::task::{
    TaskStatus, TaskControlBlock, TrapContext, TimeVal, TaskInfo, time_val_bytes,
    task_info_bytes, encode_time_val, encode_task_info, copy_counts, zeroed_counts,
};

verus! {

impl Kernel {
    /// Pid of the calling task.
    pub fn sys_getpid(&mut self) -> (r: isize)
        requires
            old(self).wf(),
            old(self).has_current(),
        ensures
            final(self).wf(),
            final(self).has_current(),
            r == old(self).cur(),
            core_same(*old(self), *final(self)),
            final(self).phys == old(self).phys,
            tasks_same_except(*old(self), *final(self), old(self).cur()),
            counts_bumped(old(self).tcb(old(self).cur()), final(self).tcb(old(self).cur()),
                SYSCALL_GETPID as int),
            same_but_counts(old(self).tcb(old(self).cur()), final(self).tcb(old(self).cur())),
    {
        let cur = self.record_syscall(SYSCALL_GETPID);
        cur as isize
    }

    /// Set the calling task's scheduling priority.  Returns the new priority
    /// when it is legal (at least 2), else -1 leaving the priority unchanged.
    pub fn sys_set_priority(&mut self, prio: isize) -> (r: isize)
        requires
            old(self).wf(),
            old(self).has_current(),
        ensures
            final(self).wf(),
            final(self).has_current(),
            core_same(*old(self), *final(self)),
            final(self).phys == old(self).phys,
            tasks_same_except(*old(self), *final(self), old(self).cur()),
            counts_bumped(old(self).tcb(old(self).cur()), final(self).tcb(old(self).cur()),
                SYSCALL_SET_PRIORITY as int),
            prio >= 2 ==> r == prio
                && final(self).tcb(old(self).cur()).priority == prio
                && same_but_counts_and_priority(old(self).tcb(old(self).cur()),
                    final(self).tcb(old(self).cur())),
            prio < 2 ==> r == -1
                && same_but_counts(old(self).tcb(old(self).cur()),
                    final(self).tcb(old(self).cur())),
    {
        let cur = self.record_syscall(SYSCALL_SET_PRIORITY);
        if prio < 2 {
            return -1;
        }
        let ghost mid = *self;
        let mut t = self.tcb_take(cur);
        t.priority = prio;
        self.tcb_put(cur, t);
        proof {
            lemma_wf_local_update(mid, *self, cur as int);
        }
        prio
    }

    /// Give the processor up: the caller goes to the back of the ready
    /// queue and the task at its front runs (the caller itself, if the
    /// queue was empty).  Always returns 0.
    pub fn sys_yield(&mut self) -> (r: isize)
        requires
            old(self).wf(),
            old(self).has_current(),
        ensures
            final(self).wf(),
            final(self).has_current(),
            r == 0,
            ({
                let cur = old(self).cur();
                let q = if old(self).ready@.len() > 0 { old(self).ready@[0] as int } else { cur };
                &&& final(self).running == Some((q as usize))
                &&& final(self).ready@ == old(self).ready@.push(cur as usize).drop_first()
                &&& final(self).tcb(q).status is Running
                &&& counts_bumped(old(self).tcb(cur), final(self).tcb(cur), SYSCALL_YIELD as int)
                &&& final(self).n() == old(self).n()
                &&& forall|p: int| 0 <= p < old(self).n() && p != cur && p != q
                        ==> final(self).tasks@[p] == old(self).tasks@[p]
                &&& (q != cur ==> final(self).tcb(cur).status is Ready
                        && same_but_status_and_counts(old(self).tcb(cur), final(self).tcb(cur))
                        && same_but_status(old(self).tcb(q), final(self).tcb(q)))
                &&& (q == cur ==> same_but_counts(old(self).tcb(cur), final(self).tcb(cur)))
            }),
            final(self).phys == old(self).phys,
            final(self).programs@ == old(self).programs@,
            final(self).now_us == old(self).now_us,
    {
        let cur = self.record_syscall(SYSCALL_YIELD);
        let ghost mid = *self;
        // current task becomes ready and queues up
        let mut t = self.tcb_take(cur);
        t.status = TaskStatus::Ready;
        self.tcb_put(cur, t);
        self.ready.push(cur);
        // the scheduler picks the task at the front of the queue
        let q = self.ready.remove(0);
        proof {
            if mid.ready@.len() > 0 {
                assert(q == mid.ready@[0]);
                assert(mid.ready@.push(cur).drop_first()
                    =~= self.ready@);
            } else {
                assert(q == cur);
                assert(mid.ready@.push(cur).drop_first() =~= self.ready@);
            }
        }
        let mut t2 = self.tcb_take(q);
        t2.status = TaskStatus::Running;
        self.tcb_put(q, t2);
        self.running = Some(q);
        proof {
            self.lemma_yield_wf(mid, cur, q);
        }
        0
    }

    /// Map `len` bytes at `start` with permission bits `port` into the
    /// calling task's address space.  Rejects (with -1, changing nothing) a
    /// misaligned start, permission bits outside {1, 2, 4}, empty permission
    /// bits, a range outside the user address space, and any collision with
    /// an already-mapped region or the heap; otherwise maps fresh zeroed
    /// pages and returns 0.
    pub fn sys_mmap(&mut self, start: usize, len: usize, port: usize) -> (r: isize)
        requires
            old(self).wf(),
            old(self).has_current(),
        ensures
            final(self).wf(),
            final(self).has_current(),
            core_same(*old(self), *final(self)),
            tasks_same_except(*old(self), *final(self), old(self).cur()),
            counts_bumped(old(self).tcb(old(self).cur()), final(self).tcb(old(self).cur()),
                SYSCALL_MMAP as int),
            same_but_counts_and_space(old(self).tcb(old(self).cur()),
                final(self).tcb(old(self).cur())),
            r == 0 || r == -1,
            r == 0 <==> old(self).tcb(old(self).cur()).space.mmap_ok(
                start as int, len as int, port),
            r == -1 ==> final(self).tcb(old(self).cur()).space
                    == old(self).tcb(old(self).cur()).space
                && final(self).phys == old(self).phys,
            r == 0 ==> mmap_post(
                old(self).tcb(old(self).cur()).space,
                final(self).tcb(old(self).cur()).space,
                old(self).phys,
                final(self).phys,
                start as int, len as int, port),
    {
        let cur = self.record_syscall(SYSCALL_MMAP);
        let ghost mid = *self;
        let mut t = self.tcb_take(cur);
        let r = t.space.mmap(&mut self.phys, start, len, port);
        self.tcb_put(cur, t);
        proof {
            lemma_wf_local_update(mid, *self, cur as int);
            if r == 0 {
                assert(mmap_post(
                    mid.tcb(cur as int).space,
                    self.tcb(cur as int).space,
                    mid.phys,
                    self.phys,
                    start as int, len as int, port));
            }
        }
        r
    }

    /// Unmap every page of `[start, start + len)` from the calling task's
    /// address space.  Rejects (with -1, changing nothing) a misaligned
    /// start and a range that is not exactly a union of currently mapped
    /// regions; otherwise removes those regions and returns 0.
    pub fn sys_munmap(&mut self, start: usize, len: usize) -> (r: isize)
        requires
            old(self).wf(),
            old(self).has_current(),
        ensures
            final(self).wf(),
            final(self).has_current(),
            core_same(*old(self), *final(self)),
            final(self).phys == old(self).phys,
            tasks_same_except(*old(self), *final(self), old(self).cur()),
            counts_bumped(old(self).tcb(old(self).cur()), final(self).tcb(old(self).cur()),
                SYSCALL_MUNMAP as int),
            same_but_counts_and_space(old(self).tcb(old(self).cur()),
                final(self).tcb(old(self).cur())),
            r == 0 || r == -1,
            r == 0 <==> old(self).tcb(old(self).cur()).space.munmap_ok(start as int, len as int),
            r == -1 ==> final(self).tcb(old(self).cur()).space
                == old(self).tcb(old(self).cur()).space,
            r == 0 ==> final(self).tcb(old(self).cur()).space.regions@ == remove_range(
                    old(self).tcb(old(self).cur()).space.regions@,
                    start as int / (PAGE_SIZE as int),
                    (start + len + PAGE_SIZE - 1) as int / (PAGE_SIZE as int),
                )
                && final(self).tcb(old(self).cur()).space.heap_base
                    == old(self).tcb(old(self).cur()).space.heap_base
                && final(self).tcb(old(self).cur()).space.brk
                    == old(self).tcb(old(self).cur()).space.brk,
    {
        let cur = self.record_syscall(SYSCALL_MUNMAP);
        let ghost mid = *self;
        let mut t = self.tcb_take(cur);
        let r = t.space.munmap(&self.phys, start, len);
        self.tcb_put(cur, t);
        proof {
            lemma_wf_local_update(mid, *self, cur as int);
        }
        r
    }

    /// Grow or shrink the calling task's program break by `size` bytes.
    /// Returns the break before the change, or -1 (changing nothing) when
    /// the new break would leave `[heap_base, MAX_VA]` or hit a mapped
    /// region.
    pub fn sys_sbrk(&mut self, size: i32) -> (r: isize)
        requires
            old(self).wf(),
            old(self).has_current(),
        ensures
            final(self).wf(),
            final(self).has_current(),
            core_same(*old(self), *final(self)),
            final(self).phys == old(self).phys,
            tasks_same_except(*old(self), *final(self), old(self).cur()),
            counts_bumped(old(self).tcb(old(self).cur()), final(self).tcb(old(self).cur()),
                SYSCALL_SBRK as int),
            same_but_counts_and_space(old(self).tcb(old(self).cur()),
                final(self).tcb(old(self).cur())),
            r == -1 <==> !old(self).tcb(old(self).cur()).space.sbrk_ok(size as int),
            r == -1 ==> final(self).tcb(old(self).cur()).space
                == old(self).tcb(old(self).cur()).space,
            r != -1 ==> r == old(self).tcb(old(self).cur()).space.brk as isize
                && final(self).tcb(old(self).cur()).space.brk
                    == old(self).tcb(old(self).cur()).space.brk + size
                && final(self).tcb(old(self).cur()).space.heap_base
                    == old(self).tcb(old(self).cur()).space.heap_base
                && final(self).tcb(old(self).cur()).space.regions@
                    == old(self).tcb(old(self).cur()).space.regions@,
    {
        let cur = self.record_syscall(SYSCALL_SBRK);
        let ghost mid = *self;
        let mut t = self.tcb_take(cur);
        let r = t.space.sbrk(&self.phys, size);
        self.tcb_put(cur, t);
        proof {
            lemma_wf_local_update(mid, *self, cur as int);
        }
        r
    }

    /// Write the current wall-clock time as a `TimeVal` record through the
    /// cross-address-space translation primitive at user address `ts`.
    /// Returns 0 after a successful write, -1 (writing nothing) when the
    /// record's byte range is not mapped writable.  `tz` is accepted and
    /// ignored.
    pub fn sys_get_time(&mut self, ts: usize, _tz: usize) -> (r: isize)
        requires
            old(self).wf(),
            old(self).has_current(),
        ensures
            final(self).wf(),
            final(self).has_current(),
            core_same(*old(self), *final(self)),
            tasks_same_except(*old(self), *final(self), old(self).cur()),
            counts_bumped(old(self).tcb(old(self).cur()), final(self).tcb(old(self).cur()),
                SYSCALL_GET_TIME as int),
            same_but_counts(old(self).tcb(old(self).cur()), final(self).tcb(old(self).cur())),
            final(self).phys.bytes@.len() == old(self).phys.bytes@.len(),
            r == 0 || r == -1,
            r == 0 <==> old(self).tcb(old(self).cur()).space.range_writable(
                ts as int, TIME_VAL_BYTES as int),
            r == -1 ==> final(self).phys == old(self).phys,
            r == 0 ==> old(self).tcb(old(self).cur()).space.read_seq(
                    final(self).phys, ts as int, TIME_VAL_BYTES as int)
                == time_val_bytes(
                    (old(self).now_us / 1000000) as usize,
                    (old(self).now_us % 1000000) as usize),
            r == 0 ==> forall|pa: int|
                0 <= pa < old(self).phys.bytes@.len()
                    && !old(self).tcb(old(self).cur()).space.pa_in_range(
                        ts as int, TIME_VAL_BYTES as int, pa)
                    ==> final(self).phys.bytes@[pa] == old(self).phys.bytes@[pa],
    {
        let cur = self.record_syscall(SYSCALL_GET_TIME);
        let ghost mid = *self;
        let us = self.now_us;
        let tv = TimeVal { sec: us / 1000000, usec: us % 1000000 };
        let data = encode_time_val(&tv);
        let t = self.tcb_take(cur);
        let ok = t.space.write_user(&mut self.phys, ts, &data);
        self.tcb_put(cur, t);
        proof {
            lemma_wf_local_update(mid, *self, cur as int);
        }
        if ok { 0 } else { -1 }
    }

    /// Write the calling task's `TaskInfo` record (status, syscall counters
    /// including this call, cumulative running time) through the translation
    /// primitive at user address `ti`.  Returns 0 after a successful write,
    /// -1 (writing nothing) when the record's byte range is not mapped
    /// writable.
    pub fn sys_task_info(&mut self, ti: usize) -> (r: isize)
        requires
            old(self).wf(),
            old(self).has_current(),
        ensures
            final(self).wf(),
            final(self).has_current(),
            core_same(*old(self), *final(self)),
            tasks_same_except(*old(self), *final(self), old(self).cur()),
            counts_bumped(old(self).tcb(old(self).cur()), final(self).tcb(old(self).cur()),
                SYSCALL_TASK_INFO as int),
            same_but_counts(old(self).tcb(old(self).cur()), final(self).tcb(old(self).cur())),
            final(self).phys.bytes@.len() == old(self).phys.bytes@.len(),
            r == 0 || r == -1,
            r == 0 <==> old(self).tcb(old(self).cur()).space.range_writable(
                ti as int, TASK_INFO_BYTES as int),
            r == -1 ==> final(self).phys == old(self).phys,
            r == 0 ==> old(self).tcb(old(self).cur()).space.read_seq(
                    final(self).phys, ti as int, TASK_INFO_BYTES as int)
                == task_info_bytes(
                    old(self).tcb(old(self).cur()).status,
                    final(self).tcb(old(self).cur()).syscall_times@,
                    old(self).tcb(old(self).cur()).time_us),
            r == 0 ==> forall|pa: int|
                0 <= pa < old(self).phys.bytes@.len()
                    && !old(self).tcb(old(self).cur()).space.pa_in_range(
                        ti as int, TASK_INFO_BYTES as int, pa)
                    ==> final(self).phys.bytes@[pa] == old(self).phys.bytes@[pa],
    {
        let cur = self.record_syscall(SYSCALL_TASK_INFO);
        let ghost mid = *self;
        let t = self.tcb_take(cur);
        let info = TaskInfo {
            status: t.status,
            syscall_times: copy_counts(&t.syscall_times),
            time: t.time_us,
        };
        let data = encode_task_info(&info);
        let ok = t.space.write_user(&mut self.phys, ti, &data);
        self.tcb_put(cur, t);
        proof {
            lemma_wf_local_update(mid, *self, cur as int);
        }
        if ok { 0 } else { -1 }
    }

    /// Duplicate the calling task: a child with a fresh pid (the next free
    /// slot), an independent byte-for-byte copy of the parent's address
    /// space, and the parent's saved registers except that the child's
    /// return-value register holds 0 -- so the child's fork observes 0 while
    /// the parent's fork returns the child's (positive) pid.  The child is
    /// linked under the parent and enqueued ready.  Returns -1, creating
    /// nothing, only when the task table is full.
    pub fn sys_fork(&mut self) -> (r: isize)
        requires
            old(self).wf(),
            old(self).has_current(),
        ensures
            final(self).wf(),
            final(self).has_current(),
            final(self).running == old(self).running,
            final(self).programs@ == old(self).programs@,
            final(self).now_us == old(self).now_us,
            counts_bumped(old(self).tcb(old(self).cur()), final(self).tcb(old(self).cur()),
                SYSCALL_FORK as int),
            old(self).n() == MAX_TASKS ==> r == -1
                && final(self).n() == old(self).n()
                && tasks_same_except(*old(self), *final(self), old(self).cur())
                && same_but_counts(old(self).tcb(old(self).cur()),
                    final(self).tcb(old(self).cur()))
                && final(self).ready@ == old(self).ready@
                && final(self).phys == old(self).phys,
            old(self).n() < MAX_TASKS ==> ({
                let cur = old(self).cur();
                let c = old(self).n();
                let child = final(self).tcb(c);
                &&& r == c
                &&& r > 0
                &&& !old(self).live(c)
                &&& final(self).n() == old(self).n() + 1
                &&& final(self).live(c)
                &&& child.pid == c
                &&& child.status is Ready
                &&& child.parent == Some((cur as usize))
                &&& child.children@.len() == 0
                &&& child.exit_code == 0
                &&& child.time_us == 0
                &&& child.priority == old(self).tcb(cur).priority
                &&& forall|id: int| 0 <= id < MAX_SYSCALL_NUM
                        ==> child.syscall_times@[id] == 0u32
                &&& child.trap_cx.x10 == 0
                &&& child.trap_cx.sepc == old(self).tcb(cur).trap_cx.sepc
                &&& child.space.heap_base == old(self).tcb(cur).space.heap_base
                &&& child.space.brk == old(self).tcb(cur).space.brk
                &&& child.space.regions@.len() == old(self).tcb(cur).space.regions@.len()
                &&& forall|k: int| 0 <= k < child.space.regions@.len()
                        ==> (#[trigger] child.space.regions@[k]).start_vpn
                                == old(self).tcb(cur).space.regions@[k].start_vpn
                            && child.space.regions@[k].len_pages
                                == old(self).tcb(cur).space.regions@[k].len_pages
                            && child.space.regions@[k].perm
                                == old(self).tcb(cur).space.regions@[k].perm
                &&& forall|vpn: int| child.space.mapped(vpn)
                        <==> old(self).tcb(cur).space.mapped(vpn)
                // the copy is physically independent: every child frame is
                // freshly allocated, so (the parent's frames all lying below
                // the old frame count) parent and child share no frame
                &&& forall|k: int, j: int|
                        0 <= k < child.space.regions@.len()
                        && 0 <= j < child.space.regions@[k].frames@.len()
                            ==> #[trigger] child.space.regions@[k].frames@[j]
                                >= old(self).phys.n_frames()
                &&& forall|va: int|
                        0 <= va < crate::config::MAX_VA
                        && old(self).tcb(cur).space.mapped(va / (PAGE_SIZE as int))
                            ==> child.space.view_byte(final(self).phys, va)
                                == old(self).tcb(cur).space.view_byte(old(self).phys, va)
                // no side effect on the parent's address space or memory
                &&& final(self).tcb(cur).space == old(self).tcb(cur).space
                &&& final(self).phys.bytes@.subrange(0, old(self).phys.bytes@.len() as int)
                        == old(self).phys.bytes@
                &&& final(self).tcb(cur).children@
                        == old(self).tcb(cur).children@.push((c as usize))
                &&& final(self).tcb(cur).pid == old(self).tcb(cur).pid
                &&& final(self).tcb(cur).status == old(self).tcb(cur).status
                &&& final(self).tcb(cur).parent == old(self).tcb(cur).parent
                &&& final(self).tcb(cur).trap_cx == old(self).tcb(cur).trap_cx
                &&& final(self).tcb(cur).priority == old(self).tcb(cur).priority
                &&& final(self).tcb(cur).time_us == old(self).tcb(cur).time_us
                &&& final(self).ready@ == old(self).ready@.push((c as usize))
                &&& forall|q: int| 0 <= q < old(self).n() && q != cur
                        ==> final(self).tasks@[q] == old(self).tasks@[q]
            }),
    {
        let cur = self.record_syscall(SYSCALL_FORK);
        if self.tasks.len() == MAX_TASKS {
            return -1;
        }
        let ghost mid = *self;
        let new_pid = self.tasks.len();
        let mut parent = self.tcb_take(cur);
        let child_space = parent.space.duplicate(&mut self.phys);
        let child = TaskControlBlock {
            pid: new_pid,
            status: TaskStatus::Ready,
            parent: Some(cur),
            children: Vec::new(),
            space: child_space,
            trap_cx: TrapContext { x10: 0, sepc: parent.trap_cx.sepc },
            exit_code: 0,
            priority: parent.priority,
            syscall_times: zeroed_counts(),
            time_us: 0,
        };
        parent.children.push(new_pid);
        self.tcb_put(cur, parent);
        self.tasks.push(Some(child));
        self.ready.push(new_pid);
        proof {
            assert(self.tcb(new_pid as int).space.wf(self.phys.n_frames()));
            lemma_wf_new_child(mid, *self, cur as int, new_pid as int);
        }
        new_pid as isize
    }

    /// Replace the calling task's program image: resolve the name read
    /// through the translation primitive at `path` against the loader's
    /// table; on success rebuild the address space fresh and reset the saved
    /// registers to the new image's entry, keeping pid, family links,
    /// priority and accounting.  Returns 0 on success; -1 (a no-op) when the
    /// name cannot be read or no program carries it.
    pub fn sys_exec(&mut self, path: usize) -> (r: isize)
        requires
            old(self).wf(),
            old(self).has_current(),
        ensures
            final(self).wf(),
            final(self).has_current(),
            core_same(*old(self), *final(self)),
            final(self).phys == old(self).phys,
            tasks_same_except(*old(self), *final(self), old(self).cur()),
            counts_bumped(old(self).tcb(old(self).cur()), final(self).tcb(old(self).cur()),
                SYSCALL_EXEC as int),
            r == 0 || r == -1,
            ({
                let name = old(self).tcb(old(self).cur()).space.cstr_at(old(self).phys, path as int);
                r == 0 <==> (name matches Some(nm) && has_prog(old(self).programs@, nm))
            }),
            r == -1 ==> same_but_counts(old(self).tcb(old(self).cur()),
                final(self).tcb(old(self).cur())),
            r == 0 ==> ({
                let cur = old(self).cur();
                let t = final(self).tcb(cur);
                let name = old(self).tcb(cur).space.cstr_at(old(self).phys, path as int);
                &&& t.pid == old(self).tcb(cur).pid
                &&& t.status == old(self).tcb(cur).status
                &&& t.parent == old(self).tcb(cur).parent
                &&& t.children@ == old(self).tcb(cur).children@
                &&& t.exit_code == old(self).tcb(cur).exit_code
                &&& t.priority == old(self).tcb(cur).priority
                &&& t.time_us == old(self).tcb(cur).time_us
                &&& t.space.regions@.len() == 0
                &&& t.space.heap_base == HEAP_BASE
                &&& t.space.brk == HEAP_BASE
                &&& t.trap_cx.x10 == 0
                &&& exists|i: int| 0 <= i < old(self).programs@.len()
                        && (#[trigger] old(self).programs@[i]).name@ == name.unwrap()
                        && (forall|j: int| 0 <= j < i
                            ==> (#[trigger] old(self).programs@[j]).name@ != name.unwrap())
                        && t.trap_cx.sepc == old(self).programs@[i].entry
            }),
    {
        let cur = self.record_syscall(SYSCALL_EXEC);
        let ghost mid = *self;
        let name_opt = {
            let t = self.tasks[cur].as_ref().unwrap();
            t.space.read_user_cstr(&self.phys, path)
        };
        let name = match name_opt {
            None => { return -1; },
            Some(name) => name,
        };
        let pi = match self.find_program(&name) {
            None => { return -1; },
            Some(pi) => pi,
        };
        let entry = self.programs[pi].entry;
        let mut t = self.tcb_take(cur);
        t.space = AddressSpace { regions: Vec::new(), heap_base: HEAP_BASE, brk: HEAP_BASE };
        t.trap_cx = TrapContext { x10: 0, sepc: entry };
        self.tcb_put(cur, t);
        proof {
            lemma_wf_local_update(mid, *self, cur as int);
        }
        0
    }

    /// Create a task running `path`'s program directly -- a fresh TCB
    /// initialized from the image, linked under the caller and enqueued
    /// ready -- without fork's address-space duplication.  Returns the new
    /// (distinct from every existing) pid, or -1 without touching the
    /// process tree when the name cannot be read, no program carries it, or
    /// the task table is full.
    pub fn sys_spawn(&mut self, path: usize) -> (r: isize)
        requires
            old(self).wf(),
            old(self).has_current(),
        ensures
            final(self).wf(),
            final(self).has_current(),
            final(self).running == old(self).running,
            final(self).programs@ == old(self).programs@,
            final(self).now_us == old(self).now_us,
            final(self).phys == old(self).phys,
            counts_bumped(old(self).tcb(old(self).cur()), final(self).tcb(old(self).cur()),
                SYSCALL_SPAWN as int),
            ({
                let name = old(self).tcb(old(self).cur()).space.cstr_at(old(self).phys, path as int);
                let resolvable = name matches Some(nm) && has_prog(old(self).programs@, nm);
                &&& (r == -1 <==> (!resolvable || old(self).n() == MAX_TASKS))
                &&& (r == -1 ==> final(self).n() == old(self).n()
                        && tasks_same_except(*old(self), *final(self), old(self).cur())
                        && same_but_counts(old(self).tcb(old(self).cur()),
                            final(self).tcb(old(self).cur()))
                        && final(self).ready@ == old(self).ready@)
                &&& (r != -1 ==> ({
                    let cur = old(self).cur();
                    let c = old(self).n();
                    let child = final(self).tcb(c);
                    &&& r == c
                    &&& r > 0
                    &&& !old(self).live(c)
                    &&& final(self).n() == old(self).n() + 1
                    &&& final(self).live(c)
                    &&& child.pid == c
                    &&& child.status is Ready
                    &&& child.parent == Some((cur as usize))
                    &&& child.children@.len() == 0
                    &&& child.exit_code == 0
                    &&& child.time_us == 0
                    &&& child.priority == DEFAULT_PRIORITY
                    &&& forall|id: int| 0 <= id < MAX_SYSCALL_NUM
                            ==> child.syscall_times@[id] == 0u32
                    &&& child.space.regions@.len() == 0
                    &&& child.space.heap_base == HEAP_BASE
                    &&& child.space.brk == HEAP_BASE
                    &&& child.trap_cx.x10 == 0
                    &&& exists|i: int| 0 <= i < old(self).programs@.len()
                            && (#[trigger] old(self).programs@[i]).name@ == name.unwrap()
                            && (forall|j: int| 0 <= j < i
                                ==> (#[trigger] old(self).programs@[j]).name@ != name.unwrap())
                            && child.trap_cx.sepc == old(self).programs@[i].entry
                    &&& final(self).tcb(cur).children@
                            == old(self).tcb(cur).children@.push((c as usize))
                    &&& same_but_counts_and_children(old(self).tcb(cur), final(self).tcb(cur))
                    &&& final(self).ready@ == old(self).ready@.push((c as usize))
                    &&& forall|q: int| 0 <= q < old(self).n() && q != cur
                            ==> final(self).tasks@[q] == old(self).tasks@[q]
                }))
            }),
    {
        let cur = self.record_syscall(SYSCALL_SPAWN);
        let ghost mid = *self;
        let name_opt = {
            let t = self.tasks[cur].as_ref().unwrap();
            t.space.read_user_cstr(&self.phys, path)
        };
        let name = match name_opt {
            None => { return -1; },
            Some(name) => name,
        };
        let pi = match self.find_program(&name) {
            None => { return -1; },
            Some(pi) => pi,
        };
        if self.tasks.len() == MAX_TASKS {
            return -1;
        }
        let entry = self.programs[pi].entry;
        let new_pid = self.tasks.len();
        let mut parent = self.tcb_take(cur);
        parent.children.push(new_pid);
        self.tcb_put(cur, parent);
        let child = TaskControlBlock {
            pid: new_pid,
            status: TaskStatus::Ready,
            parent: Some(cur),
            children: Vec::new(),
            space: AddressSpace { regions: Vec::new(), heap_base: HEAP_BASE, brk: HEAP_BASE },
            trap_cx: TrapContext { x10: 0, sepc: entry },
            exit_code: 0,
            priority: DEFAULT_PRIORITY,
            syscall_times: zeroed_counts(),
            time_us: 0,
        };
        self.tasks.push(Some(child));
        self.ready.push(new_pid);
        proof {
            lemma_wf_new_child(mid, *self, cur as int, new_pid as int);
        }
        new_pid as isize
    }

    /// The scheduling step of `sys_yield` preserves the kernel invariant.
    #[verifier::rlimit(60)]
    proof fn lemma_yield_wf(self, mid: Kernel, cur: usize, q: usize)
        requires
            mid.wf(),
            mid.running == Some(cur),
            self.n() == mid.n(),
            q as int == if mid.ready@.len() > 0 { mid.ready@[0] as int } else { cur as int },
            self.ready@ == mid.ready@.push(cur).drop_first(),
            self.running == Some(q),
            self.live(cur as int),
            self.live(q as int),
            forall|p: int| 0 <= p < mid.n() && p != cur && p != q
                ==> self.tasks@[p] == mid.tasks@[p],
            self.tcb(q as int).status is Running,
            q != cur ==> self.tcb(cur as int).status is Ready
                && same_but_status(mid.tcb(cur as int), self.tcb(cur as int))
                && same_but_status(mid.tcb(q as int), self.tcb(q as int)),
            q == cur ==> self.tcb(cur as int) == mid.tcb(cur as int),
            self.phys == mid.phys,
            self.programs@ == mid.programs@,
            self.now_us == mid.now_us,
        ensures
            self.wf(),
    {
        assert(forall|p: int| self.live(p) <==> mid.live(p));
        assert forall|p: int| #[trigger] self.live(p)
            implies self.tcb(p).wf(self.phys.n_frames(), self.n()) && self.tcb(p).pid == p by {
            assert(mid.tcb(p).wf(mid.phys.n_frames(), mid.n()));
        }
        assert(self.tasks_ok());
        assert forall|p: int, k: int|
            self.live(p) && 0 <= k < self.tcb(p).children@.len()
            implies {
                let c = #[trigger] self.tcb(p).children@[k] as int;
                self.live(c) && self.tcb(c).parent == Some(p as usize) && p < c
            } by {
            assert(self.tcb(p).children@ == mid.tcb(p).children@);
            let c = mid.tcb(p).children@[k] as int;
            assert(mid.live(c) && mid.tcb(c).parent == Some(p as usize) && p < c);
            assert(self.tcb(c).parent == mid.tcb(c).parent);
        }
        assert forall|c: int|
            self.live(c) && (#[trigger] self.tcb(c).parent) is Some
            implies {
                let p = self.tcb(c).parent.unwrap() as int;
                self.live(p) && self.tcb(p).children@.contains(c as usize)
            } by {
            assert(self.tcb(c).parent == mid.tcb(c).parent);
            let p = mid.tcb(c).parent.unwrap() as int;
            assert(mid.live(p) && mid.tcb(p).children@.contains(c as usize));
            assert(self.tcb(p).children@ == mid.tcb(p).children@);
        }
        assert forall|p: int, k1: int, k2: int|
            self.live(p) && 0 <= k1 < k2 < self.tcb(p).children@.len()
            implies #[trigger] self.tcb(p).children@[k1] != #[trigger] self.tcb(p).children@[k2] by {
            assert(self.tcb(p).children@ == mid.tcb(p).children@);
            assert(mid.tcb(p).children@[k1] != mid.tcb(p).children@[k2]);
        }
        assert forall|c: int|
            #[trigger] self.live(c) && c != crate::config::ROOT_PID && self.tcb(c).status is Zombie
            implies self.tcb(c).children@.len() == 0 by {
            assert(mid.tcb(c).status is Zombie);
            assert(mid.tcb(c).children@ == self.tcb(c).children@);
        }
        assert(self.tree_ok());
        // the popped task was at the queue front (or is the caller), so it
        // was Ready or the caller itself; everyone else keeps their status
        assert forall|p: int| self.live(p) && (#[trigger] self.tcb(p).status) is Running
            implies self.running == Some(p as usize) by {
            if p != cur && p != q {
                assert(mid.tcb(p).status is Running);
                assert(mid.running == Some(p as usize));
                assert(false);
            }
            if p == cur && q != cur {
                assert(self.tcb(cur as int).status is Ready);
                assert(false);
            }
        }
        assert forall|k: int| 0 <= k < self.ready@.len()
            implies self.live(#[trigger] self.ready@[k] as int)
                && self.tcb(self.ready@[k] as int).status is Ready by {
            let e = self.ready@[k] as int;
            assert(self.ready@[k] == mid.ready@.push(cur)[k + 1]);
            if k + 1 < mid.ready@.len() {
                assert(self.ready@[k] == mid.ready@[k + 1]);
                assert(mid.tcb(e).status is Ready);
                assert(e != q || mid.ready@[0] != mid.ready@[k + 1]) by {
                    if mid.ready@.len() > 0 && mid.ready@[0] == mid.ready@[k + 1] {
                        assert(false);
                    }
                }
                assert(e != cur) by {
                    if e == cur {
                        assert(mid.tcb(cur as int).status is Running);
                    }
                }
                assert(self.tcb(e).status == mid.tcb(e).status);
            } else {
                assert(self.ready@[k] == cur);
                assert(q != cur);
                assert(self.tcb(cur as int).status is Ready);
            }
        }
        assert forall|k1: int, k2: int| 0 <= k1 < k2 < self.ready@.len()
            implies #[trigger] self.ready@[k1] != #[trigger] self.ready@[k2] by {
            let w = mid.ready@.push(cur);
            assert(self.ready@[k1] == w[k1 + 1] && self.ready@[k2] == w[k2 + 1]);
            if k2 + 1 < mid.ready@.len() {
                assert(mid.ready@[k1 + 1] != mid.ready@[k2 + 1]);
            } else {
                // the later element is the caller, which was Running and so
                // cannot have sat in the ready queue
                assert(w[k2 + 1] == cur);
                if k1 + 1 < mid.ready@.len() {
                    assert(w[k1 + 1] == mid.ready@[k1 + 1]);
                    if mid.ready@[k1 + 1] == cur {
                        assert(mid.tcb(cur as int).status is Ready);
                        assert(mid.tcb(cur as int).status is Running);
                    }
                }
            }
        }
        assert(self.sched_ok());
    }
}

/// Every field of the task except its life-cycle status is unchanged.
pub open spec fn same_but_status(a: crate::task::TaskControlBlock, b: crate::task::TaskControlBlock) -> bool {
    &&& b.pid == a.pid
    &&& b.parent == a.parent
    &&& b.children@ == a.children@
    &&& b.space == a.space
    &&& b.trap_cx == a.trap_cx
    &&& b.exit_code == a.exit_code
    &&& b.priority == a.priority
    &&& b.syscall_times@ == a.syscall_times@
    &&& b.time_us == a.time_us
}

/// Every field except the address space and the syscall counters is
/// unchanged.
pub open spec fn same_but_counts_and_space(a: crate::task::TaskControlBlock, b: crate::task::TaskControlBlock) -> bool {
    &&& b.pid == a.pid
    &&& b.status == a.status
    &&& b.parent == a.parent
    &&& b.children@ == a.children@
    &&& b.trap_cx == a.trap_cx
    &&& b.exit_code == a.exit_code
    &&& b.priority == a.priority
    &&& b.time_us == a.time_us
}

/// Every field except the children collection and the syscall counters is
/// unchanged.
pub open spec fn same_but_counts_and_children(a: crate::task::TaskControlBlock, b: crate::task::TaskControlBlock) -> bool {
    &&& b.pid == a.pid
    &&& b.status == a.status
    &&& b.parent == a.parent
    &&& b.space == a.space
    &&& b.trap_cx == a.trap_cx
    &&& b.exit_code == a.exit_code
    &&& b.priority == a.priority
    &&& b.time_us == a.time_us
}

/// Every field except priority and the syscall counters is unchanged.
pub open spec fn same_but_counts_and_priority(a: crate::task::TaskControlBlock, b: crate::task::TaskControlBlock) -> bool {
    &&& b.pid == a.pid
    &&& b.status == a.status
    &&& b.parent == a.parent
    &&& b.children@ == a.children@
    &&& b.space == a.space
    &&& b.trap_cx == a.trap_cx
    &&& b.exit_code == a.exit_code
    &&& b.time_us == a.time_us
}

/// Every field except status and the syscall counters is unchanged.
pub open spec fn same_but_status_and_counts(a: crate::task::TaskControlBlock, b: crate::task::TaskControlBlock) -> bool {
    &&& b.pid == a.pid
    &&& b.parent == a.parent
    &&& b.children@ == a.children@
    &&& b.space == a.space
    &&& b.trap_cx == a.trap_cx
    &&& b.exit_code == a.exit_code
    &&& b.priority == a.priority
    &&& b.time_us == a.time_us
}

} // verus!
