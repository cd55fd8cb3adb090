//! The kernel core: the process table and tree, the run queue, the open-file
//! table, the model clock, and the syscall dispatch surface. Every syscall
//! validates its arguments fully before mutating shared state; malformed user
//! input yields a negative sentinel, never a fault.
use vstd::prelude::*;

use crate::fs::Fs;
use crate::mem::AddressSpace;
use crate::task::FdEntry;
use crate::task::Pcb;
use crate::task::TaskStatus;
use crate::BIG_STRIDE;
use crate::HEAP_BOTTOM;
use crate::HEAP_TOP;
use crate::MAX_FILE;
use crate::MAX_PROCS;
use crate::MAX_SYSCALL_NUM;

verus! {

/// Pass value of the process `p` in the table `procs`.
pub open spec fn pass_of(procs: Seq<Option<Pcb>>, p: usize) -> u64 {
    procs[p as int]->0.pass
}

/// `i` is the index the scheduler picks from queue `q`: the first entry
/// whose pass is minimal, so ties break FIFO among equal passes.
pub open spec fn is_first_min(procs: Seq<Option<Pcb>>, q: Seq<usize>, i: int) -> bool {
    &&& 0 <= i < q.len()
    &&& forall|j: int|
        0 <= j < q.len() ==> pass_of(procs, q[i]) <= pass_of(procs, #[trigger] q[j])
    &&& forall|j: int| 0 <= j < i ==> pass_of(procs, #[trigger] q[j]) > pass_of(procs, q[i])
}

/// The index the scheduler picks from `q` (meaningful only when `q` is not
/// empty).
pub open spec fn first_min_idx(procs: Seq<Option<Pcb>>, q: Seq<usize>) -> int {
    choose|i: int| is_first_min(procs, q, i)
}

/// Pass of a process after it is selected: it advances by
/// `BIG_STRIDE / priority`, saturating, so higher priority means slower
/// advance and a proportionally larger share of selections.
pub open spec fn bumped_pass(pass: u64, priority: u32) -> u64 {
    let stride = BIG_STRIDE / priority as u64;
    if pass + stride <= u64::MAX {
        (pass + stride) as u64
    } else {
        u64::MAX
    }
}

/// The kernel: process table (indexed by pid), run queue, current process,
/// shared open-file table, filesystem collaborator, model clock, and the
/// console output sink.
#[verifier::ext_equal]
pub struct Kernel {
    /// Process table: slot `p` holds the PCB with pid `p`, or nothing once
    /// that process has been reaped.
    pub procs: Vec<Option<Pcb>>,
    /// Pids of the Ready processes, in arrival order.
    pub run_queue: Vec<usize>,
    /// Pid of the Running process, if any.
    pub current: Option<usize>,
    /// Shared open-file handles referenced by descriptor tables.
    pub open_files: Vec<crate::task::OpenFile>,
    /// The filesystem collaborator.
    pub fs: Fs,
    /// Microseconds since boot.
    pub clock_us: usize,
    /// Bytes written to the standard output stream.
    pub console_out: Vec<u8>,
}

impl Kernel {
    /// Slot `p` holds a live (unreaped) process.
    pub open spec fn live(self, p: int) -> bool {
        0 <= p < self.procs@.len() && self.procs@[p] is Some
    }

    /// The PCB in slot `p` (meaningful only when live).
    pub open spec fn proc_at(self, p: int) -> Pcb {
        self.procs@[p]->0
    }

    /// A process is running.
    pub open spec fn has_cur(self) -> bool {
        self.current is Some
    }

    /// Pid of the running process.
    pub open spec fn cur_pid(self) -> int {
        self.current->0 as int
    }

    /// PCB of the running process.
    pub open spec fn cur(self) -> Pcb {
        self.proc_at(self.cur_pid())
    }

    /// `p` waits in the run queue.
    pub open spec fn in_queue(self, p: int) -> bool {
        exists|i: int| 0 <= i < self.run_queue@.len() && self.run_queue@[i] == p
    }

    /// Table-level well-formedness of the live process in slot `p`.
    pub open spec fn proc_ok(self, p: int) -> bool {
        let pcb = self.proc_at(p);
        &&& pcb.pid == p
        &&& pcb.wf_local(self.open_files@.len() as int)
        &&& match pcb.parent {
            Some(q) => q < self.procs@.len() && q != p,
            None => true,
        }
        &&& forall|k: int|
            0 <= k < pcb.children@.len() ==> {
                let c = #[trigger] pcb.children@[k];
                &&& self.live(c as int)
                &&& self.proc_at(c as int).parent == Some(pcb.pid)
                &&& c != p
            }
        &&& forall|k1: int, k2: int|
            0 <= k1 < k2 < pcb.children@.len() ==> pcb.children@[k1] != pcb.children@[k2]
    }

    /// The kernel invariant: consistent table, tree, queue, statuses, open
    /// files and filesystem.
    pub open spec fn wf(self) -> bool {
        &&& self.procs@.len() <= MAX_PROCS
        &&& forall|p: int| #[trigger] self.live(p) ==> self.proc_ok(p)
        &&& forall|i: int|
            0 <= i < self.run_queue@.len() ==> {
                let q = #[trigger] self.run_queue@[i];
                self.live(q as int) && self.proc_at(q as int).status == TaskStatus::Ready
            }
        &&& forall|i: int, j: int|
            0 <= i < j < self.run_queue@.len() ==> self.run_queue@[i] != self.run_queue@[j]
        &&& match self.current {
            Some(c) => self.live(c as int) && self.proc_at(c as int).status
                == TaskStatus::Running,
            None => true,
        }
        &&& forall|p: int|
            self.live(p) && (#[trigger] self.proc_at(p)).status == TaskStatus::Running
                ==> self.current == Some(p as usize)
        &&& forall|p: int|
            self.live(p) && (#[trigger] self.proc_at(p)).status == TaskStatus::Ready
                ==> self.in_queue(p)
        &&& forall|f: int|
            0 <= f < self.open_files@.len() ==> {
                let of = #[trigger] self.open_files@[f];
                of.inode < self.fs.inodes@.len() && of.offset <= MAX_FILE
            }
        &&& self.fs.wf()
    }

    /// Everything but the process table, queue and current pointer is the
    /// same in `a` and `b`.
    pub open spec fn same_outside_sched(a: Kernel, b: Kernel) -> bool {
        &&& b.open_files == a.open_files
        &&& b.fs == a.fs
        &&& b.clock_us == a.clock_us
        &&& b.console_out == a.console_out
    }

    /// Relation between the state before and after one scheduler selection,
    /// entered with no running process: with an empty queue nothing changes
    /// (the kernel idles); otherwise the first minimal-pass entry leaves the
    /// queue, becomes Running with its pass advanced, and becomes current.
    pub open spec fn after_schedule(pre: Kernel, post: Kernel) -> bool {
        if pre.run_queue@.len() == 0 {
            post == pre
        } else {
            let i = first_min_idx(pre.procs@, pre.run_queue@);
            let w = pre.run_queue@[i];
            let wp = pre.proc_at(w as int);
            &&& is_first_min(pre.procs@, pre.run_queue@, i)
            &&& post.procs@ == pre.procs@.update(
                w as int,
                Some(
                    Pcb {
                        status: TaskStatus::Running,
                        pass: bumped_pass(wp.pass, wp.priority),
                        ..wp
                    },
                ),
            )
            &&& post.run_queue@ == pre.run_queue@.remove(i)
            &&& post.current == Some(w)
            &&& Self::same_outside_sched(pre, post)
        }
    }

    /// Two first-minimum indexes coincide.
    pub proof fn lemma_first_min_unique(procs: Seq<Option<Pcb>>, q: Seq<usize>, i: int, j: int)
        requires
            is_first_min(procs, q, i),
            is_first_min(procs, q, j),
        ensures
            i == j,
    {
        if i < j {
            assert(pass_of(procs, q[i]) > pass_of(procs, q[j]));
            assert(pass_of(procs, q[i]) <= pass_of(procs, q[j]));
        }
        if j < i {
            assert(pass_of(procs, q[j]) > pass_of(procs, q[i]));
            assert(pass_of(procs, q[j]) <= pass_of(procs, q[i]));
        }
    }

    /// Boots the kernel over a filesystem, with one initial process (pid 0)
    /// running, an empty run queue, and the clock at zero.
    pub fn boot(fs: Fs) -> (k: Kernel)
        requires
            fs.wf(),
        ensures
            k.wf(),
            k.procs@.len() == 1,
            k.current == Some(0usize),
            k.cur().pid == 0,
            k.cur().parent is None,
            k.cur().children@.len() == 0,
            k.cur().status == TaskStatus::Running,
            k.cur().priority == 16,
            k.cur().space.regions@.len() == 0,
            forall|vpn: int| !k.cur().space.page_mapped(vpn),
            k.cur().fd_table@ == seq![
                Some(FdEntry::Stdin),
                Some(FdEntry::Stdout),
                Some(FdEntry::Stdout),
            ],
            k.run_queue@.len() == 0,
            k.open_files@.len() == 0,
            k.fs == fs,
            k.clock_us == 0,
            k.console_out@.len() == 0,
    {
        let pcb = Pcb {
            pid: 0,
            parent: None,
            children: Vec::new(),
            status: TaskStatus::Running,
            exit_code: 0,
            priority: 16,
            pass: 0,
            syscall_times: crate::task::zero_counters(),
            time_us: 0,
            fd_table: crate::task::default_fd_table(),
            space: AddressSpace::new_empty(HEAP_BOTTOM, HEAP_TOP),
            user_retval: 0,
        };
        let mut procs: Vec<Option<Pcb>> = Vec::new();
        procs.push(Some(pcb));
        let k = Kernel {
            procs,
            run_queue: Vec::new(),
            current: Some(0),
            open_files: Vec::new(),
            fs,
            clock_us: 0,
            console_out: Vec::new(),
        };
        k
    }

    /// Selects the next process to run. Must be entered with no running
    /// process; with an empty queue the kernel idles (current stays empty).
    fn schedule(&mut self)
        requires
            old(self).wf(),
            old(self).current is None,
        ensures
            final(self).wf(),
            Self::after_schedule(*old(self), *final(self)),
    {
        let n = self.run_queue.len();
        if n == 0 {
            return ;
        }
        let mut best: usize = 0;
        let mut best_pass: u64 = self.procs[self.run_queue[0]].as_ref().unwrap().pass;
        let mut j: usize = 1;
        while j < n
            invariant
                *self == *old(self),
                self.wf(),
                n == self.run_queue@.len(),
                0 < n,
                best < j <= n,
                best_pass == pass_of(self.procs@, self.run_queue@[best as int]),
                forall|t: int|
                    0 <= t < j ==> best_pass <= pass_of(
                        self.procs@,
                        #[trigger] self.run_queue@[t],
                    ),
                forall|t: int|
                    0 <= t < best ==> pass_of(self.procs@, #[trigger] self.run_queue@[t])
                        > best_pass,
            decreases n - j,
        {
            let q = self.run_queue[j];
            let p = self.procs[q].as_ref().unwrap().pass;
            if p < best_pass {
                best = j;
                best_pass = p;
            }
            j += 1;
        }
        proof {
            assert(is_first_min(self.procs@, self.run_queue@, best as int));
            Self::lemma_first_min_unique(
                self.procs@,
                self.run_queue@,
                best as int,
                first_min_idx(self.procs@, self.run_queue@),
            );
        }
        let ghost pre = *self;
        let w = self.run_queue.remove(best);
        let mut pcb = self.procs[w].take().unwrap();
        let stride = BIG_STRIDE / (pcb.priority as u64);
        if pcb.pass <= u64::MAX - stride {
            pcb.pass = pcb.pass + stride;
        } else {
            pcb.pass = u64::MAX;
        }
        pcb.status = TaskStatus::Running;
        self.procs[w] = Some(pcb);
        self.current = Some(w);
        proof {
            let post = *self;
            let wi = w as int;
            let wp = pre.proc_at(wi);
            assert(post.procs@ =~= pre.procs@.update(
                wi,
                Some(
                    Pcb {
                        status: TaskStatus::Running,
                        pass: bumped_pass(wp.pass, wp.priority),
                        ..wp
                    },
                ),
            ));
            assert(Self::after_schedule(pre, post));
            assert forall|p: int| #[trigger] post.live(p) implies post.proc_ok(p) by {
                assert(pre.live(p));
                assert(pre.proc_ok(p));
                if p != wi {
                    assert(post.proc_at(p) == pre.proc_at(p));
                }
                assert forall|k: int| 0 <= k < post.proc_at(p).children@.len() implies {
                    let c = #[trigger] post.proc_at(p).children@[k];
                    &&& post.live(c as int)
                    &&& post.proc_at(c as int).parent == Some(post.proc_at(p).pid)
                    &&& c != p
                } by {
                    let c = post.proc_at(p).children@[k];
                    assert(post.proc_at(p).children@ == pre.proc_at(p).children@);
                    assert(pre.live(c as int));
                    assert(pre.proc_at(c as int).parent == Some(pre.proc_at(p).pid));
                }
            }
            assert forall|i: int| 0 <= i < post.run_queue@.len() implies {
                let q = #[trigger] post.run_queue@[i];
                post.live(q as int) && post.proc_at(q as int).status == TaskStatus::Ready
            } by {
                let q = post.run_queue@[i];
                let pi = if i < best as int {
                    i
                } else {
                    i + 1
                };
                assert(q == pre.run_queue@[pi]);
                assert(pi != best as int);
                assert(q != w) by {
                    if q == w {
                        assert(pre.run_queue@[pi] == pre.run_queue@[best as int]);
                    }
                }
            }
            assert forall|i: int, j2: int|
                0 <= i < j2 < post.run_queue@.len() implies post.run_queue@[i]
                != post.run_queue@[j2] by {
                let pi = if i < best as int {
                    i
                } else {
                    i + 1
                };
                let pj = if j2 < best as int {
                    j2
                } else {
                    j2 + 1
                };
                assert(post.run_queue@[i] == pre.run_queue@[pi]);
                assert(post.run_queue@[j2] == pre.run_queue@[pj]);
            }
            assert forall|p: int|
                post.live(p) && (#[trigger] post.proc_at(p)).status == TaskStatus::Running
                implies post.current == Some(p as usize) by {
                if p != wi {
                    assert(pre.proc_at(p).status == TaskStatus::Running);
                }
            }
            assert forall|p: int|
                post.live(p) && (#[trigger] post.proc_at(p)).status == TaskStatus::Ready
                implies post.in_queue(p) by {
                if p != wi {
                    assert(pre.proc_at(p).status == TaskStatus::Ready);
                    assert(pre.in_queue(p));
                    let i = choose|i: int|
                        0 <= i < pre.run_queue@.len() && pre.run_queue@[i] == p;
                    assert(i != best as int) by {
                        if i == best as int {
                            assert(pre.proc_at(wi).status == TaskStatus::Ready);
                        }
                    }
                    let ni = if i < best as int {
                        i
                    } else {
                        i - 1
                    };
                    assert(post.run_queue@[ni] == pre.run_queue@[i]);
                }
            }
            assert(post.wf());
        }
    }

    /// The running process's identity.
    pub fn sys_getpid(&self) -> (r: isize)
        requires
            self.wf(),
            self.has_cur(),
        ensures
            r == self.cur().pid,
            0 <= r < MAX_PROCS,
    {
        let c = self.current.unwrap();
        let pid = self.procs[c].as_ref().unwrap().pid;
        pid as isize
    }

    /// Relinquishes the processor: the running process becomes Ready at the
    /// back of the queue and the scheduler selects anew (possibly the same
    /// process, if its pass is still the first minimum).
    pub fn sys_yield(&mut self) -> (r: isize)
        requires
            old(self).wf(),
            old(self).has_cur(),
        ensures
            r == 0,
            final(self).wf(),
            final(self).has_cur(),
            ({
                let c = old(self).cur_pid();
                let procs1 = old(self).procs@.update(
                    c,
                    Some(Pcb { status: TaskStatus::Ready, ..old(self).cur() }),
                );
                let cands = old(self).run_queue@.push(old(self).current->0);
                let i = first_min_idx(procs1, cands);
                let w = cands[i];
                let wp = procs1[w as int]->0;
                &&& is_first_min(procs1, cands, i)
                &&& final(self).procs@ == procs1.update(
                    w as int,
                    Some(
                        Pcb {
                            status: TaskStatus::Running,
                            pass: bumped_pass(wp.pass, wp.priority),
                            ..wp
                        },
                    ),
                )
                &&& final(self).run_queue@ == cands.remove(i)
                &&& final(self).current == Some(w)
                &&& Self::same_outside_sched(*old(self), *final(self))
            }),
    {
        let c = self.current.unwrap();
        let mut pcb = self.procs[c].take().unwrap();
        pcb.status = TaskStatus::Ready;
        self.procs[c] = Some(pcb);
        self.run_queue.push(c);
        self.current = None;
        proof {
            let mid = *self;
            let ci = c as int;
            assert(mid.procs@ =~= old(self).procs@.update(
                ci,
                Some(Pcb { status: TaskStatus::Ready, ..old(self).cur() }),
            ));
            assert forall|p: int| #[trigger] mid.live(p) implies mid.proc_ok(p) by {
                assert(old(self).live(p));
                assert(old(self).proc_ok(p));
                if p != ci {
                    assert(mid.proc_at(p) == old(self).proc_at(p));
                }
                assert forall|k: int| 0 <= k < mid.proc_at(p).children@.len() implies {
                    let cc = #[trigger] mid.proc_at(p).children@[k];
                    &&& mid.live(cc as int)
                    &&& mid.proc_at(cc as int).parent == Some(mid.proc_at(p).pid)
                    &&& cc != p
                } by {
                    let cc = mid.proc_at(p).children@[k];
                    assert(mid.proc_at(p).children@ == old(self).proc_at(p).children@);
                    assert(old(self).live(cc as int));
                    assert(old(self).proc_at(cc as int).parent == Some(old(self).proc_at(p).pid));
                }
            }
            assert forall|i: int| 0 <= i < mid.run_queue@.len() implies {
                let q = #[trigger] mid.run_queue@[i];
                mid.live(q as int) && mid.proc_at(q as int).status == TaskStatus::Ready
            } by {
                if i < old(self).run_queue@.len() {
                    let q = old(self).run_queue@[i];
                    assert(q != c) by {
                        if q == c {
                            assert(old(self).proc_at(ci).status == TaskStatus::Ready);
                        }
                    }
                }
            }
            assert forall|i: int, j: int|
                0 <= i < j < mid.run_queue@.len() implies mid.run_queue@[i]
                != mid.run_queue@[j] by {
                if j == mid.run_queue@.len() - 1 {
                    let q = old(self).run_queue@[i];
                    assert(q != c) by {
                        if q == c {
                            assert(old(self).proc_at(ci).status == TaskStatus::Ready);
                        }
                    }
                }
            }
            assert forall|p: int|
                mid.live(p) && (#[trigger] mid.proc_at(p)).status == TaskStatus::Running
                implies mid.current == Some(p as usize) by {
                if p != ci {
                    assert(old(self).proc_at(p).status == TaskStatus::Running);
                }
            }
            assert forall|p: int|
                mid.live(p) && (#[trigger] mid.proc_at(p)).status == TaskStatus::Ready
                implies mid.in_queue(p) by {
                if p == ci {
                    assert(mid.run_queue@[mid.run_queue@.len() - 1] == c);
                } else {
                    assert(old(self).proc_at(p).status == TaskStatus::Ready);
                    let i = choose|i: int|
                        0 <= i < old(self).run_queue@.len() && old(self).run_queue@[i] == p;
                    assert(mid.run_queue@[i] == p);
                }
            }
            assert(mid.wf());
        }
        self.schedule();
        proof {
            assert(final(self).has_cur());
        }
        0
    }

    /// Terminates the running process: it becomes a Zombie holding
    /// `exit_code`, its children stay attached to it (no re-parenting), and
    /// control passes to the scheduler; the caller never resumes. Orphaned
    /// zombies whose parent is later reaped stay in the table unreaped.
    pub fn sys_exit(&mut self, exit_code: i32)
        requires
            old(self).wf(),
            old(self).has_cur(),
        ensures
            final(self).wf(),
            !final(self).has_cur() ==> old(self).run_queue@.len() == 0,
            ({
                let c = old(self).cur_pid();
                let procs1 = old(self).procs@.update(
                    c,
                    Some(
                        Pcb {
                            status: TaskStatus::Zombie,
                            exit_code: exit_code,
                            ..old(self).cur()
                        },
                    ),
                );
                let q = old(self).run_queue@;
                if q.len() == 0 {
                    &&& final(self).procs@ == procs1
                    &&& final(self).run_queue@ == q
                    &&& final(self).current is None
                    &&& Self::same_outside_sched(*old(self), *final(self))
                } else {
                    let i = first_min_idx(procs1, q);
                    let w = q[i];
                    let wp = procs1[w as int]->0;
                    &&& is_first_min(procs1, q, i)
                    &&& final(self).procs@ == procs1.update(
                        w as int,
                        Some(
                            Pcb {
                                status: TaskStatus::Running,
                                pass: bumped_pass(wp.pass, wp.priority),
                                ..wp
                            },
                        ),
                    )
                    &&& final(self).run_queue@ == q.remove(i)
                    &&& final(self).current == Some(w)
                    &&& Self::same_outside_sched(*old(self), *final(self))
                }
            }),
    {
        let c = self.current.unwrap();
        let mut pcb = self.procs[c].take().unwrap();
        pcb.status = TaskStatus::Zombie;
        pcb.exit_code = exit_code;
        self.procs[c] = Some(pcb);
        self.current = None;
        proof {
            let mid = *self;
            let ci = c as int;
            assert(mid.procs@ =~= old(self).procs@.update(
                ci,
                Some(
                    Pcb {
                        status: TaskStatus::Zombie,
                        exit_code: exit_code,
                        ..old(self).cur()
                    },
                ),
            ));
            assert forall|p: int| #[trigger] mid.live(p) implies mid.proc_ok(p) by {
                assert(old(self).live(p));
                assert(old(self).proc_ok(p));
                if p != ci {
                    assert(mid.proc_at(p) == old(self).proc_at(p));
                }
                assert forall|k: int| 0 <= k < mid.proc_at(p).children@.len() implies {
                    let cc = #[trigger] mid.proc_at(p).children@[k];
                    &&& mid.live(cc as int)
                    &&& mid.proc_at(cc as int).parent == Some(mid.proc_at(p).pid)
                    &&& cc != p
                } by {
                    let cc = mid.proc_at(p).children@[k];
                    assert(mid.proc_at(p).children@ == old(self).proc_at(p).children@);
                    assert(old(self).live(cc as int));
                    assert(old(self).proc_at(cc as int).parent == Some(old(self).proc_at(p).pid));
                }
            }
            assert forall|i: int| 0 <= i < mid.run_queue@.len() implies {
                let q = #[trigger] mid.run_queue@[i];
                mid.live(q as int) && mid.proc_at(q as int).status == TaskStatus::Ready
            } by {
                let q = mid.run_queue@[i];
                assert(q != c) by {
                    if q == c {
                        assert(old(self).proc_at(ci).status == TaskStatus::Ready);
                    }
                }
            }
            assert forall|p: int|
                mid.live(p) && (#[trigger] mid.proc_at(p)).status == TaskStatus::Running
                implies mid.current == Some(p as usize) by {
                if p != ci {
                    assert(old(self).proc_at(p).status == TaskStatus::Running);
                }
            }
            assert forall|p: int|
                mid.live(p) && (#[trigger] mid.proc_at(p)).status == TaskStatus::Ready
                implies mid.in_queue(p) by {
                assert(p != ci);
                assert(old(self).proc_at(p).status == TaskStatus::Ready);
                let i = choose|i: int|
                    0 <= i < old(self).run_queue@.len() && old(self).run_queue@[i] == p;
                assert(mid.run_queue@[i] == p);
            }
            assert(mid.wf());
        }
        self.schedule();
    }

    /// Sets the running process's scheduling priority. Priorities 0 and 1
    /// are reserved (rejected with `-1`); values above the largest accepted
    /// priority are clamped so every stride stays at least 1.
    pub fn sys_set_priority(&mut self, prio: isize) -> (r: isize)
        requires
            old(self).wf(),
            old(self).has_cur(),
        ensures
            final(self).wf(),
            prio < 2 ==> r == -1 && *final(self) == *old(self),
            prio >= 2 ==> {
                let clamped = if prio > crate::MAX_PRIORITY as int {
                    crate::MAX_PRIORITY as u32
                } else {
                    prio as u32
                };
                &&& r == prio
                &&& final(self).procs@ == old(self).procs@.update(
                    old(self).cur_pid(),
                    Some(Pcb { priority: clamped, ..old(self).cur() }),
                )
                &&& final(self).run_queue == old(self).run_queue
                &&& final(self).current == old(self).current
                &&& Self::same_outside_sched(*old(self), *final(self))
            },
    {
        if prio < 2 {
            return -1;
        }
        let c = self.current.unwrap();
        let mut pcb = self.procs[c].take().unwrap();
        if prio >= crate::MAX_PRIORITY as isize {
            pcb.priority = crate::MAX_PRIORITY as u32;
        } else {
            pcb.priority = prio as u32;
        }
        self.procs[c] = Some(pcb);
        proof {
            let ci = c as int;
            let clamped = if prio > crate::MAX_PRIORITY as int {
                crate::MAX_PRIORITY as u32
            } else {
                prio as u32
            };
            assert(self.procs@ =~= old(self).procs@.update(
                ci,
                Some(Pcb { priority: clamped, ..old(self).cur() }),
            ));
            Self::lemma_wf_after_local_update(*old(self), *self, ci);
        }
        prio
    }

    /// The invariant survives replacing the PCB in slot `p` by one with the
    /// same pid, parent, children, status and descriptor-table length facts.
    proof fn lemma_wf_after_local_update(pre: Kernel, post: Kernel, p: int)
        requires
            pre.wf(),
            pre.live(p),
            post.procs@ == pre.procs@.update(p, Some(post.proc_at(p))),
            post.proc_at(p).pid == pre.proc_at(p).pid,
            post.proc_at(p).parent == pre.proc_at(p).parent,
            post.proc_at(p).children == pre.proc_at(p).children,
            post.proc_at(p).status == pre.proc_at(p).status,
            post.proc_at(p).wf_local(post.open_files@.len() as int),
            post.run_queue == pre.run_queue,
            post.current == pre.current,
            post.open_files == pre.open_files,
            post.fs == pre.fs,
        ensures
            post.wf(),
    {
        assert forall|q: int| #[trigger] post.live(q) implies post.proc_ok(q) by {
            assert(pre.live(q));
            assert(pre.proc_ok(q));
            if q != p {
                assert(post.proc_at(q) == pre.proc_at(q));
            }
            assert forall|k: int| 0 <= k < post.proc_at(q).children@.len() implies {
                let cc = #[trigger] post.proc_at(q).children@[k];
                &&& post.live(cc as int)
                &&& post.proc_at(cc as int).parent == Some(post.proc_at(q).pid)
                &&& cc != q
            } by {
                let cc = post.proc_at(q).children@[k];
                assert(post.proc_at(q).children@ == pre.proc_at(q).children@);
                assert(pre.live(cc as int));
                assert(pre.proc_at(cc as int).parent == Some(pre.proc_at(q).pid));
                if cc as int != p {
                    assert(post.proc_at(cc as int) == pre.proc_at(cc as int));
                }
            }
        }
        assert forall|i: int| 0 <= i < post.run_queue@.len() implies {
            let q = #[trigger] post.run_queue@[i];
            post.live(q as int) && post.proc_at(q as int).status == TaskStatus::Ready
        } by {
            let q = post.run_queue@[i];
            assert(pre.live(q as int) && pre.proc_at(q as int).status == TaskStatus::Ready);
            if q as int != p {
                assert(post.proc_at(q as int) == pre.proc_at(q as int));
            }
        }
        assert forall|q: int|
            post.live(q) && (#[trigger] post.proc_at(q)).status == TaskStatus::Running
            implies post.current == Some(q as usize) by {
            if q != p {
                assert(pre.proc_at(q).status == TaskStatus::Running);
            }
        }
        assert forall|q: int|
            post.live(q) && (#[trigger] post.proc_at(q)).status == TaskStatus::Ready
            implies post.in_queue(q) by {
            if q != p {
                assert(pre.proc_at(q).status == TaskStatus::Ready);
            }
            assert(pre.in_queue(q));
            let i = choose|i: int| 0 <= i < pre.run_queue@.len() && pre.run_queue@[i] == q;
            assert(post.run_queue@[i] == q);
        }
        if pre.current is Some {
            let cc = pre.current->0 as int;
            if cc != p {
                assert(post.proc_at(cc) == pre.proc_at(cc));
            }
        }
    }

    /// The invariant only reads the process table, queue, current pointer,
    /// open-file table and filesystem: it survives changes to the clock and
    /// the console sink.
    proof fn lemma_wf_same_core(pre: Kernel, post: Kernel)
        requires
            pre.wf(),
            post.procs == pre.procs,
            post.run_queue == pre.run_queue,
            post.current == pre.current,
            post.open_files == pre.open_files,
            post.fs == pre.fs,
        ensures
            post.wf(),
    {
        assert forall|p: int| #[trigger] post.live(p) implies post.proc_ok(p) by {
            assert(pre.live(p));
            assert(pre.proc_ok(p));
            let a = pre.proc_at(p);
            assert forall|k: int| 0 <= k < a.children@.len() implies {
                let c = #[trigger] a.children@[k];
                &&& post.live(c as int)
                &&& post.proc_at(c as int).parent == Some(a.pid)
                &&& c != p
            } by {
                assert(pre.live(a.children@[k] as int));
            }
        }
        assert forall|i: int| 0 <= i < post.run_queue@.len() implies {
            let q = #[trigger] post.run_queue@[i];
            post.live(q as int) && post.proc_at(q as int).status == TaskStatus::Ready
        } by {
            assert(pre.live(post.run_queue@[i] as int));
        }
        assert forall|p: int|
            post.live(p) && (#[trigger] post.proc_at(p)).status == TaskStatus::Running
            implies post.current == Some(p as usize) by {
            assert(pre.live(p));
            assert(pre.proc_at(p).status == TaskStatus::Running);
        }
        assert forall|p: int|
            post.live(p) && (#[trigger] post.proc_at(p)).status == TaskStatus::Ready
            implies post.in_queue(p) by {
            assert(pre.live(p));
            assert(pre.proc_at(p).status == TaskStatus::Ready);
            assert(pre.in_queue(p));
            let i = choose|i: int| 0 <= i < pre.run_queue@.len() && pre.run_queue@[i] == p;
            assert(post.run_queue@[i] == p);
        }
        if pre.current is Some {
            assert(pre.live(pre.current->0 as int));
        }
    }

    /// Counts one invocation of syscall `id` against the running process
    /// (saturating). The trap layer calls this before dispatching.
    pub fn record_syscall(&mut self, id: usize)
        requires
            old(self).wf(),
            old(self).has_cur(),
            id < MAX_SYSCALL_NUM,
        ensures
            final(self).wf(),
            ({
                let t = old(self).cur().syscall_times@;
                let bumped = if t[id as int] < u32::MAX {
                    (t[id as int] + 1) as u32
                } else {
                    u32::MAX
                };
                &&& final(self).procs@ == old(self).procs@.update(
                    old(self).cur_pid(),
                    Some(
                        Pcb {
                            syscall_times: final(self).cur().syscall_times,
                            ..old(self).cur()
                        },
                    ),
                )
                &&& final(self).cur().syscall_times@ == t.update(id as int, bumped)
                &&& final(self).run_queue == old(self).run_queue
                &&& final(self).current == old(self).current
                &&& Self::same_outside_sched(*old(self), *final(self))
            }),
    {
        let c = self.current.unwrap();
        let mut pcb = self.procs[c].take().unwrap();
        let t = pcb.syscall_times[id];
        if t < u32::MAX {
            pcb.syscall_times[id] = t + 1;
        } else {
            pcb.syscall_times[id] = u32::MAX;
        }
        self.procs[c] = Some(pcb);
        proof {
            let ci = c as int;
            assert(self.procs@ =~= old(self).procs@.update(ci, Some(self.proc_at(ci))));
            Self::lemma_wf_after_local_update(*old(self), *self, ci);
        }
    }

    /// Advances the model clock by `delta` microseconds and charges the time
    /// to the running process, if any (both saturating).
    pub fn advance_clock(&mut self, delta: usize)
        requires
            old(self).wf(),
        ensures
            final(self).wf(),
            final(self).clock_us == if old(self).clock_us + delta <= usize::MAX {
                old(self).clock_us + delta
            } else {
                usize::MAX as int
            },
            old(self).has_cur() ==> final(self).procs@ == old(self).procs@.update(
                old(self).cur_pid(),
                Some(Pcb { time_us: final(self).cur().time_us, ..old(self).cur() }),
            ) && final(self).cur().time_us == (if old(self).cur().time_us + delta <= usize::MAX {
                old(self).cur().time_us + delta
            } else {
                usize::MAX as int
            }),
            !old(self).has_cur() ==> final(self).procs@ == old(self).procs@,
            final(self).run_queue == old(self).run_queue,
            final(self).current == old(self).current,
            final(self).open_files == old(self).open_files,
            final(self).fs == old(self).fs,
            final(self).console_out == old(self).console_out,
    {
        if delta <= usize::MAX - self.clock_us {
            self.clock_us = self.clock_us + delta;
        } else {
            self.clock_us = usize::MAX;
        }
        if self.current.is_some() {
            let c = self.current.unwrap();
            let mut pcb = self.procs[c].take().unwrap();
            if delta <= usize::MAX - pcb.time_us {
                pcb.time_us = pcb.time_us + delta;
            } else {
                pcb.time_us = usize::MAX;
            }
            self.procs[c] = Some(pcb);
            proof {
                let ci = c as int;
                assert(self.procs@ =~= old(self).procs@.update(ci, Some(self.proc_at(ci))));
                Self::lemma_wf_after_local_update(*old(self), *self, ci);
            }
        } else {
            proof {
                Self::lemma_wf_same_core(*old(self), *self);
            }
        }
    }
}

impl Kernel {
    /// Whether `sys_mmap` accepts these arguments in state `k`: page-aligned
    /// start, a permission word with only access bits and at least one set,
    /// an in-range span, and no page of the span already mapped.
    pub open spec fn mmap_accepts(k: Kernel, start: int, len: int, port: int) -> bool {
        &&& start % (crate::PAGE_SIZE as int) == 0
        &&& 1 <= port <= 7
        &&& start + len <= crate::MAX_VA
        &&& forall|vpn: int|
            start / (crate::PAGE_SIZE as int) <= vpn < (start + len + crate::PAGE_SIZE - 1) / (
            crate::PAGE_SIZE as int) ==> !k.cur().space.page_mapped(vpn)
    }

    /// The permission mask encoded by the low three bits of a port word.
    pub open spec fn perm_of_port(port: int) -> crate::mem::PagePerm {
        crate::mem::PagePerm {
            read: port % 2 == 1,
            write: (port / 2) % 2 == 1,
            execute: (port / 4) % 2 == 1,
        }
    }

    /// Maps `[start, start + len)` (rounded up to whole pages) into the
    /// running process's address space with the permission bits of `port`
    /// (bit 0 read, bit 1 write, bit 2 execute), backing it with fresh
    /// zero-filled frames. Fails with `-1` on a misaligned start, invalid
    /// permission bits, an out-of-range span, or any overlap with an
    /// existing mapping; a failure changes nothing.
    pub fn sys_mmap(&mut self, start: usize, len: usize, port: usize) -> (r: isize)
        requires
            old(self).wf(),
            old(self).has_cur(),
        ensures
            final(self).wf(),
            r == 0 <==> Self::mmap_accepts(*old(self), start as int, len as int, port as int),
            r != 0 ==> r == -1 && *final(self) == *old(self),
            r == 0 ==> ({
                let sv = start as int / (crate::PAGE_SIZE as int);
                let pages = (len + crate::PAGE_SIZE - 1) as int / (crate::PAGE_SIZE as int);
                let s0 = old(self).cur().space;
                let s1 = final(self).cur().space;
                &&& final(self).procs@ == old(self).procs@.update(
                    old(self).cur_pid(),
                    Some(Pcb { space: s1, ..old(self).cur() }),
                )
                &&& (pages > 0 ==> exists|ri: int|
                    0 <= ri < s1.regions@.len() && (#[trigger] s1.regions@[ri]).start_vpn == sv
                        && s1.regions@[ri].num_pages == pages)
                &&& forall|vpn: int|
                    sv <= vpn < sv + pages ==> s1.page_mapped(vpn) && s1.perm_at(vpn)
                        == Self::perm_of_port(port as int)
                &&& forall|vpn: int|
                    !(sv <= vpn < sv + pages) ==> (s1.page_mapped(vpn) <==> s0.page_mapped(vpn))
                        && (s0.page_mapped(vpn) ==> s1.perm_at(vpn) == s0.perm_at(vpn))
                &&& forall|x: int|
                    sv * crate::PAGE_SIZE <= x < (sv + pages) * crate::PAGE_SIZE ==> s1.byte_at(x)
                        == 0
                &&& forall|x: int|
                    0 <= x < crate::MAX_VA && s0.va_mapped(x) ==> s1.byte_at(x) == s0.byte_at(x)
                &&& s1.heap_bottom == s0.heap_bottom && s1.brk == s0.brk && s1.heap_top
                    == s0.heap_top
                &&& final(self).run_queue == old(self).run_queue
                &&& final(self).current == old(self).current
                &&& Self::same_outside_sched(*old(self), *final(self))
            }),
    {
        if start % crate::PAGE_SIZE != 0 {
            return -1;
        }
        if port < 1 || port > 7 {
            return -1;
        }
        if len > crate::MAX_VA || start > crate::MAX_VA - len {
            return -1;
        }
        let pages = (len + crate::PAGE_SIZE - 1) / crate::PAGE_SIZE;
        let sv = start / crate::PAGE_SIZE;
        let c = self.current.unwrap();
        if pages == 0 {
            proof {
                assert(Self::mmap_accepts(*old(self), start as int, len as int, port as int));
                assert(self.procs@ =~= old(self).procs@.update(
                    old(self).cur_pid(),
                    Some(Pcb { space: self.cur().space, ..old(self).cur() }),
                ));
            }
            return 0;
        }
        let perm = crate::mem::PagePerm {
            read: port % 2 == 1,
            write: (port / 2) % 2 == 1,
            execute: (port / 4) % 2 == 1,
        };
        proof {
            assert(perm.valid());
            vstd::arithmetic::div_mod::lemma_fundamental_div_mod(
                (len + crate::PAGE_SIZE - 1) as int,
                crate::PAGE_SIZE as int,
            );
            vstd::arithmetic::div_mod::lemma_fundamental_div_mod(
                start as int,
                crate::PAGE_SIZE as int,
            );
            assert(sv + pages <= crate::MAX_VPN);
        }
        if !self.procs[c].as_ref().unwrap().space.can_map(sv, pages) {
            proof {
                assert(!Self::mmap_accepts(*old(self), start as int, len as int, port as int));
            }
            return -1;
        }
        let mut pcb = self.procs[c].take().unwrap();
        let ok = pcb.space.map(sv, pages, perm);
        self.procs[c] = Some(pcb);
        proof {
            assert(ok);
            let ci = c as int;
            assert(self.procs@ =~= old(self).procs@.update(
                ci,
                Some(Pcb { space: self.proc_at(ci).space, ..old(self).cur() }),
            ));
            Self::lemma_wf_after_local_update(*old(self), *self, ci);
        }
        0
    }

    /// Whether `sys_munmap` accepts these arguments in state `k`: an aligned
    /// start whose span aligns exactly with one previously mapped region (an
    /// empty span is accepted and releases nothing).
    pub open spec fn munmap_accepts(k: Kernel, start: int, len: int) -> bool {
        let sv = start / (crate::PAGE_SIZE as int);
        let pages = (len + crate::PAGE_SIZE - 1) / (crate::PAGE_SIZE as int);
        &&& start % (crate::PAGE_SIZE as int) == 0
        &&& start + len <= crate::MAX_VA
        &&& (pages == 0 || exists|i: int|
            0 <= i < k.cur().space.regions@.len() && (#[trigger] k.cur().space.regions@[i]).start_vpn
                == sv && k.cur().space.regions@[i].num_pages == pages)
    }

    /// Releases the mapping that `sys_mmap` established with exactly these
    /// bounds, freeing its frames. Fails with `-1`, changing nothing, on a
    /// misaligned start or when the span does not align exactly with a
    /// previously mapped region.
    pub fn sys_munmap(&mut self, start: usize, len: usize) -> (r: isize)
        requires
            old(self).wf(),
            old(self).has_cur(),
        ensures
            final(self).wf(),
            r == 0 <==> Self::munmap_accepts(*old(self), start as int, len as int),
            r != 0 ==> r == -1 && *final(self) == *old(self),
            r == 0 ==> ({
                let sv = start as int / (crate::PAGE_SIZE as int);
                let pages = (len + crate::PAGE_SIZE - 1) as int / (crate::PAGE_SIZE as int);
                let s0 = old(self).cur().space;
                let s1 = final(self).cur().space;
                &&& final(self).procs@ == old(self).procs@.update(
                    old(self).cur_pid(),
                    Some(Pcb { space: s1, ..old(self).cur() }),
                )
                &&& forall|vpn: int| sv <= vpn < sv + pages ==> !s1.page_mapped(vpn)
                &&& forall|vpn: int|
                    !(sv <= vpn < sv + pages) ==> (s1.page_mapped(vpn) <==> s0.page_mapped(vpn))
                        && (s0.page_mapped(vpn) ==> s1.perm_at(vpn) == s0.perm_at(vpn))
                &&& s1.heap_bottom == s0.heap_bottom && s1.brk == s0.brk && s1.heap_top
                    == s0.heap_top
                &&& final(self).run_queue == old(self).run_queue
                &&& final(self).current == old(self).current
                &&& Self::same_outside_sched(*old(self), *final(self))
            }),
    {
        if start % crate::PAGE_SIZE != 0 {
            return -1;
        }
        if len > crate::MAX_VA || start > crate::MAX_VA - len {
            return -1;
        }
        let pages = (len + crate::PAGE_SIZE - 1) / crate::PAGE_SIZE;
        let sv = start / crate::PAGE_SIZE;
        let c = self.current.unwrap();
        if pages == 0 {
            proof {
                assert(self.procs@ =~= old(self).procs@.update(
                    old(self).cur_pid(),
                    Some(Pcb { space: self.cur().space, ..old(self).cur() }),
                ));
            }
            return 0;
        }
        if !self.procs[c].as_ref().unwrap().space.has_exact_region(sv, pages) {
            proof {
                assert(!Self::munmap_accepts(*old(self), start as int, len as int));
            }
            return -1;
        }
        let mut pcb = self.procs[c].take().unwrap();
        let ok = pcb.space.unmap(sv, pages);
        self.procs[c] = Some(pcb);
        proof {
            assert(ok);
            let ci = c as int;
            assert(self.procs@ =~= old(self).procs@.update(
                ci,
                Some(Pcb { space: self.proc_at(ci).space, ..old(self).cur() }),
            ));
            Self::lemma_wf_after_local_update(*old(self), *self, ci);
        }
        0
    }

    /// Moves the running process's data-segment break by `size` bytes and
    /// returns the previous break; fails with `-1`, changing nothing, when
    /// the move would leave the segment's limits.
    pub fn sys_sbrk(&mut self, size: i32) -> (r: isize)
        requires
            old(self).wf(),
            old(self).has_cur(),
        ensures
            final(self).wf(),
            ({
                let s0 = old(self).cur().space;
                let fits = s0.heap_bottom <= s0.brk + size <= s0.heap_top;
                &&& (fits ==> r == s0.brk && final(self).procs@ == old(self).procs@.update(
                    old(self).cur_pid(),
                    Some(
                        Pcb {
                            space: crate::mem::AddressSpace {
                                brk: (s0.brk + size) as usize,
                                ..s0
                            },
                            ..old(self).cur()
                        },
                    ),
                ) && final(self).run_queue == old(self).run_queue && final(self).current == old(self).current && Self::same_outside_sched(*old(self), *final(self)))
                &&& (!fits ==> r == -1 && *final(self) == *old(self))
            }),
    {
        let c = self.current.unwrap();
        let fits = {
            let sp = &self.procs[c].as_ref().unwrap().space;
            if size >= 0 {
                size as usize <= sp.heap_top - sp.brk
            } else {
                (-(size as i64)) as usize <= sp.brk - sp.heap_bottom
            }
        };
        if !fits {
            return -1;
        }
        let mut pcb = self.procs[c].take().unwrap();
        let res = pcb.space.change_brk(size);
        self.procs[c] = Some(pcb);
        proof {
            assert(res is Some);
            let ci = c as int;
            assert(self.procs@ =~= old(self).procs@.update(
                ci,
                Some(Pcb { space: self.proc_at(ci).space, ..old(self).cur() }),
            ));
            Self::lemma_wf_after_local_update(*old(self), *self, ci);
        }
        res.unwrap() as isize
    }

    /// The current time split into seconds and microseconds.
    pub fn current_timeval(&self) -> (tv: crate::task::TimeVal)
        ensures
            tv.sec == self.clock_us / crate::MICRO_PER_SEC,
            tv.usec == self.clock_us % crate::MICRO_PER_SEC,
    {
        crate::task::TimeVal {
            sec: self.clock_us / crate::MICRO_PER_SEC,
            usec: self.clock_us % crate::MICRO_PER_SEC,
        }
    }

    /// Writes the current time as a `TimeVal` (two little-endian words)
    /// verbatim into the caller's memory at `ts`, splitting across pages
    /// when the buffer straddles a boundary; `tz` is ignored. Fails with
    /// `-1`, changing nothing, when the 16 target bytes are not all mapped.
    pub fn sys_get_time(&mut self, ts: usize, tz: usize) -> (r: isize)
        requires
            old(self).wf(),
            old(self).has_cur(),
        ensures
            final(self).wf(),
            ({
                let tv = crate::task::TimeVal {
                    sec: (old(self).clock_us / crate::MICRO_PER_SEC) as usize,
                    usec: (old(self).clock_us % crate::MICRO_PER_SEC) as usize,
                };
                let s0 = old(self).cur().space;
                let writable = ts + 16 <= crate::MAX_VA && s0.range_mapped(ts as int, 16);
                let s1 = final(self).cur().space;
                &&& (r == 0 <==> writable)
                &&& (r != 0 ==> r == -1 && *final(self) == *old(self))
                &&& (r == 0 ==> {
                    &&& final(self).procs@ == old(self).procs@.update(
                        old(self).cur_pid(),
                        Some(Pcb { space: s1, ..old(self).cur() }),
                    )
                    &&& s1.mem_bytes(ts as int, 16) == crate::task::timeval_bytes(tv)
                    &&& crate::mem::same_mem_except(s0, s1, ts as int, 16)
                    &&& final(self).run_queue == old(self).run_queue
                    &&& final(self).current == old(self).current
                    &&& Self::same_outside_sched(*old(self), *final(self))
                })
            }),
    {
        let _ = tz;
        let us = self.clock_us;
        let mut v: Vec<u8> = Vec::new();
        crate::bytes::push_le64(&mut v, (us / crate::MICRO_PER_SEC) as u64);
        crate::bytes::push_le64(&mut v, (us % crate::MICRO_PER_SEC) as u64);
        proof {
            assert(v@ =~= crate::task::timeval_bytes(
                crate::task::TimeVal {
                    sec: (us / crate::MICRO_PER_SEC) as usize,
                    usec: (us % crate::MICRO_PER_SEC) as usize,
                },
            ));
        }
        if ts >= crate::MAX_VA || crate::MAX_VA - ts < 16 {
            return -1;
        }
        let c = self.current.unwrap();
        if !self.procs[c].as_ref().unwrap().space.check_range(ts, 16) {
            return -1;
        }
        let mut pcb = self.procs[c].take().unwrap();
        let ok = pcb.space.write_buffer(ts, &v);
        self.procs[c] = Some(pcb);
        proof {
            assert(ok);
            let ci = c as int;
            assert(self.procs@ =~= old(self).procs@.update(
                ci,
                Some(Pcb { space: self.proc_at(ci).space, ..old(self).cur() }),
            ));
            Self::lemma_wf_after_local_update(*old(self), *self, ci);
        }
        0
    }
}

impl Kernel {
    /// The unsigned word image of an exit code, as written into the waiting
    /// parent's memory.
    pub open spec fn exit_bits(x: i32) -> u32 {
        if x >= 0 {
            x as u32
        } else {
            (x + 0x100000000) as u32
        }
    }

    /// Whether child entry `c` matches the argument of `sys_waitpid`:
    /// `pid == -1` means any child.
    pub open spec fn child_matches(pid: int, c: usize) -> bool {
        pid == -1 || c == pid
    }

    /// Some child of the running process matches `pid`.
    pub open spec fn has_match(self, pid: int) -> bool {
        exists|i: int|
            0 <= i < self.cur().children@.len() && Self::child_matches(
                pid,
                #[trigger] self.cur().children@[i],
            )
    }

    /// `i` is the first matching child of the running process that is
    /// already a Zombie.
    pub open spec fn is_first_zombie_match(self, pid: int, i: int) -> bool {
        let ch = self.cur().children@;
        &&& 0 <= i < ch.len()
        &&& Self::child_matches(pid, ch[i])
        &&& self.proc_at(ch[i] as int).status == TaskStatus::Zombie
        &&& forall|j: int|
            0 <= j < i ==> !(Self::child_matches(pid, #[trigger] ch[j]) && self.proc_at(
                ch[j] as int,
            ).status == TaskStatus::Zombie)
    }

    /// Index of that first reapable child (meaningful only when one exists).
    pub open spec fn zombie_match_idx(self, pid: int) -> int {
        choose|i: int| self.is_first_zombie_match(pid, i)
    }

    /// Duplicates the running process: the child gets a fresh identity, a
    /// deep copy of the address space, the same descriptor table (handles
    /// shared, not duplicated), inherited priority and pass, fresh
    /// accounting, and joins the tree and the run queue Ready. The parent
    /// observes the child's pid; the child's saved return register is
    /// patched to 0 after the duplication, so the child observes 0.
    pub fn sys_fork(&mut self) -> (r: isize)
        requires
            old(self).wf(),
            old(self).has_cur(),
            old(self).procs@.len() < MAX_PROCS,
        ensures
            final(self).wf(),
            r == old(self).procs@.len(),
            ({
                let c = old(self).cur_pid();
                let newp = old(self).procs@.len() as int;
                let child = final(self).proc_at(newp);
                &&& final(self).procs@.len() == newp + 1
                &&& final(self).live(newp)
                &&& child.pid == newp
                &&& child.parent == Some(old(self).current->0)
                &&& child.children@.len() == 0
                &&& child.status == TaskStatus::Ready
                &&& child.exit_code == 0
                &&& child.priority == old(self).cur().priority
                &&& child.pass == old(self).cur().pass
                &&& child.syscall_times@.len() == MAX_SYSCALL_NUM
                &&& forall|i: int|
                    0 <= i < child.syscall_times@.len() ==> child.syscall_times@[i] == 0
                &&& child.time_us == 0
                &&& child.fd_table@ == old(self).cur().fd_table@
                &&& child.user_retval == 0
                &&& crate::mem::same_space(old(self).cur().space, child.space)
                &&& forall|x: int|
                    0 <= x < crate::MAX_VA && old(self).cur().space.va_mapped(x)
                        ==> child.space.byte_at(x) == old(self).cur().space.byte_at(x)
                &&& final(self).proc_at(c) == Pcb {
                    children: final(self).proc_at(c).children,
                    ..old(self).cur()
                }
                &&& final(self).proc_at(c).children@ == old(self).cur().children@.push(
                    old(self).procs@.len() as usize,
                )
                &&& forall|p: int|
                    0 <= p < newp && p != c ==> final(self).procs@[p] == old(self).procs@[p]
                &&& final(self).run_queue@ == old(self).run_queue@.push(old(self).procs@.len() as usize)
                &&& final(self).current == old(self).current
                &&& Self::same_outside_sched(*old(self), *final(self))
            }),
    {
        let c = self.current.unwrap();
        let new_pid = self.procs.len();
        let space2 = crate::task::clone_space(&self.procs[c].as_ref().unwrap().space);
        let fdt2 = crate::task::clone_fd_table(&self.procs[c].as_ref().unwrap().fd_table);
        let priority = self.procs[c].as_ref().unwrap().priority;
        let pass = self.procs[c].as_ref().unwrap().pass;
        let child = Pcb {
            pid: new_pid,
            parent: Some(c),
            children: Vec::new(),
            status: TaskStatus::Ready,
            exit_code: 0,
            priority,
            pass,
            syscall_times: crate::task::zero_counters(),
            time_us: 0,
            fd_table: fdt2,
            space: space2,
            user_retval: 0,
        };
        self.procs.push(Some(child));
        let mut pcb = self.procs[c].take().unwrap();
        pcb.children.push(new_pid);
        self.procs[c] = Some(pcb);
        self.run_queue.push(new_pid);
        proof {
            let post = *self;
            let ci = c as int;
            let newp = new_pid as int;
            assert forall|p: int| #[trigger] post.live(p) implies post.proc_ok(p) by {
                if p == newp {
                    assert forall|k: int, k2: int|
                        0 <= k < k2 < post.proc_at(p).children@.len() implies post.proc_at(
                        p,
                    ).children@[k] != post.proc_at(p).children@[k2] by {}
                } else {
                    assert(old(self).live(p));
                    assert(old(self).proc_ok(p));
                    let a = old(self).proc_at(p);
                    if p != ci {
                        assert(post.proc_at(p) == a);
                    }
                    if p == ci {
                        assert forall|k: int| 0 <= k < post.proc_at(p).children@.len() implies {
                            let cc = #[trigger] post.proc_at(p).children@[k];
                            &&& post.live(cc as int)
                            &&& post.proc_at(cc as int).parent == Some(post.proc_at(p).pid)
                            &&& cc != p
                        } by {
                            if k < a.children@.len() {
                                let cc = a.children@[k];
                                assert(old(self).live(cc as int));
                                assert(old(self).proc_at(cc as int).parent == Some(a.pid));
                                assert(cc as int != newp);
                            } else {
                                assert(post.proc_at(p).children@[k] == new_pid);
                            }
                        }
                        assert forall|k: int, k2: int|
                            0 <= k < k2 < post.proc_at(p).children@.len() implies post.proc_at(
                            p,
                        ).children@[k] != post.proc_at(p).children@[k2] by {
                            if k2 == post.proc_at(p).children@.len() - 1 {
                                let cc = a.children@[k];
                                assert(old(self).live(cc as int));
                                assert(cc as int != newp);
                            }
                        }
                    } else {
                        assert forall|k: int| 0 <= k < post.proc_at(p).children@.len() implies {
                            let cc = #[trigger] post.proc_at(p).children@[k];
                            &&& post.live(cc as int)
                            &&& post.proc_at(cc as int).parent == Some(post.proc_at(p).pid)
                            &&& cc != p
                        } by {
                            let cc = a.children@[k];
                            assert(old(self).live(cc as int));
                            assert(old(self).proc_at(cc as int).parent == Some(a.pid));
                            assert(cc as int != newp);
                        }
                    }
                }
            }
            assert forall|i: int| 0 <= i < post.run_queue@.len() implies {
                let q = #[trigger] post.run_queue@[i];
                post.live(q as int) && post.proc_at(q as int).status == TaskStatus::Ready
            } by {
                if i < old(self).run_queue@.len() {
                    let q = old(self).run_queue@[i];
                    assert(old(self).live(q as int));
                    assert(q as int != newp);
                    assert(q as int != ci) by {
                        if q as int == ci {
                            assert(old(self).proc_at(ci).status == TaskStatus::Ready);
                        }
                    }
                }
            }
            assert forall|i: int, j: int|
                0 <= i < j < post.run_queue@.len() implies post.run_queue@[i]
                != post.run_queue@[j] by {
                if j == post.run_queue@.len() - 1 {
                    let q = old(self).run_queue@[i];
                    assert(old(self).live(q as int));
                }
            }
            assert forall|p: int|
                post.live(p) && (#[trigger] post.proc_at(p)).status == TaskStatus::Running
                implies post.current == Some(p as usize) by {
                if p != newp && p != ci {
                    assert(old(self).live(p));
                    assert(old(self).proc_at(p).status == TaskStatus::Running);
                }
            }
            assert forall|p: int|
                post.live(p) && (#[trigger] post.proc_at(p)).status == TaskStatus::Ready
                implies post.in_queue(p) by {
                if p == newp {
                    assert(post.run_queue@[post.run_queue@.len() - 1] == new_pid);
                } else {
                    assert(old(self).live(p));
                    if p != ci {
                        assert(old(self).proc_at(p).status == TaskStatus::Ready);
                        assert(old(self).in_queue(p));
                        let i = choose|i: int|
                            0 <= i < old(self).run_queue@.len() && old(self).run_queue@[i] == p;
                        assert(post.run_queue@[i] == p);
                    }
                }
            }
            assert(post.wf());
            assert(post.proc_at(ci) =~~= Pcb {
                children: post.proc_at(ci).children,
                ..old(self).cur()
            });
        }
        new_pid as isize
    }

    /// Replaces the running process's address space in place with one built
    /// from the program image linked under the zero-terminated path read
    /// from the caller's memory, preserving identity, descriptor table and
    /// tree links. Fails with `-1`, changing nothing, when the path does not
    /// translate or no file is linked under it.
    pub fn sys_exec(&mut self, path: usize) -> (r: isize)
        requires
            old(self).wf(),
            old(self).has_cur(),
        ensures
            final(self).wf(),
            path < crate::MAX_VA && (exists|s: Seq<u8>|
                old(self).cur().space.is_cstr_at(path as int, s)) ==> ({
                let s = choose|s: Seq<u8>| old(self).cur().space.is_cstr_at(path as int, s);
                if old(self).fs.has_name(s) {
                    let image = old(self).fs.inodes@[old(self).fs.inode_of(s)]@;
                    &&& r == 0
                    &&& final(self).procs@ == old(self).procs@.update(
                        old(self).cur_pid(),
                        Some(Pcb { space: final(self).cur().space, ..old(self).cur() }),
                    )
                    &&& crate::task::image_space_ok(final(self).cur().space, image)
                    &&& final(self).run_queue == old(self).run_queue
                    &&& final(self).current == old(self).current
                    &&& Self::same_outside_sched(*old(self), *final(self))
                } else {
                    r == -1 && *final(self) == *old(self)
                }
            }),
            (path >= crate::MAX_VA || (forall|s: Seq<u8>|
                !old(self).cur().space.is_cstr_at(path as int, s))) ==> r == -1 && *final(self)
                == *old(self),
    {
        if path >= crate::MAX_VA {
            return -1;
        }
        let c = self.current.unwrap();
        let name = match self.procs[c].as_ref().unwrap().space.read_cstr(path) {
            Some(n) => n,
            None => {
                return -1;
            },
        };
        let ino = match self.fs.lookup(&name) {
            Some(ino) => ino,
            None => {
                proof {
                    let s = choose|s: Seq<u8>|
                        old(self).cur().space.is_cstr_at(path as int, s);
                    old(self).cur().space.lemma_cstr_unique(path as int, s, name@);
                }
                return -1;
            },
        };
        let dl = self.fs.inodes[ino].len();
        let image = self.fs.read_at(ino, 0, dl);
        proof {
            assert(image@ =~= self.fs.inodes@[ino as int]@);
        }
        let space2 = crate::task::build_image_space(&image);
        let mut pcb = self.procs[c].take().unwrap();
        pcb.space = space2;
        self.procs[c] = Some(pcb);
        proof {
            let ci = c as int;
            assert(self.procs@ =~= old(self).procs@.update(
                ci,
                Some(Pcb { space: self.proc_at(ci).space, ..old(self).cur() }),
            ));
            Self::lemma_wf_after_local_update(*old(self), *self, ci);
            let s = choose|s: Seq<u8>| old(self).cur().space.is_cstr_at(path as int, s);
            old(self).cur().space.lemma_cstr_unique(path as int, s, name@);
        }
        0
    }

    /// A fused fork and exec: creates a new process whose address space is
    /// built directly from the named program image (no copy of the caller's
    /// memory), with the default descriptor table, added as a child and
    /// enqueued Ready. Returns the new pid; fails with `-1`, changing
    /// nothing, when the path does not translate or no file is linked
    /// under it.
    pub fn sys_spawn(&mut self, path: usize) -> (r: isize)
        requires
            old(self).wf(),
            old(self).has_cur(),
            old(self).procs@.len() < MAX_PROCS,
        ensures
            final(self).wf(),
            path < crate::MAX_VA && (exists|s: Seq<u8>|
                old(self).cur().space.is_cstr_at(path as int, s)) ==> ({
                let s = choose|s: Seq<u8>| old(self).cur().space.is_cstr_at(path as int, s);
                if old(self).fs.has_name(s) {
                    let c = old(self).cur_pid();
                    let newp = old(self).procs@.len() as int;
                    let image = old(self).fs.inodes@[old(self).fs.inode_of(s)]@;
                    let child = final(self).proc_at(newp);
                    &&& r == newp
                    &&& final(self).procs@.len() == newp + 1
                    &&& final(self).live(newp)
                    &&& child.pid == newp
                    &&& child.parent == Some(old(self).current->0)
                    &&& child.children@.len() == 0
                    &&& child.status == TaskStatus::Ready
                    &&& child.priority == 16
                    &&& child.pass == old(self).cur().pass
                    &&& child.time_us == 0
                    &&& forall|i: int|
                        0 <= i < child.syscall_times@.len() ==> child.syscall_times@[i] == 0
                    &&& child.fd_table@ == seq![
                        Some(FdEntry::Stdin),
                        Some(FdEntry::Stdout),
                        Some(FdEntry::Stdout),
                    ]
                    &&& crate::task::image_space_ok(child.space, image)
                    &&& final(self).proc_at(c) == Pcb {
                        children: final(self).proc_at(c).children,
                        ..old(self).cur()
                    }
                    &&& final(self).proc_at(c).children@ == old(self).cur().children@.push(
                        old(self).procs@.len() as usize,
                    )
                    &&& forall|p: int|
                        0 <= p < newp && p != c ==> final(self).procs@[p] == old(self).procs@[p]
                    &&& final(self).run_queue@ == old(self).run_queue@.push(
                        old(self).procs@.len() as usize,
                    )
                    &&& final(self).current == old(self).current
                    &&& Self::same_outside_sched(*old(self), *final(self))
                } else {
                    r == -1 && *final(self) == *old(self)
                }
            }),
            (path >= crate::MAX_VA || (forall|s: Seq<u8>|
                !old(self).cur().space.is_cstr_at(path as int, s))) ==> r == -1 && *final(self)
                == *old(self),
    {
        if path >= crate::MAX_VA {
            return -1;
        }
        let c = self.current.unwrap();
        let name = match self.procs[c].as_ref().unwrap().space.read_cstr(path) {
            Some(n) => n,
            None => {
                return -1;
            },
        };
        let ino = match self.fs.lookup(&name) {
            Some(ino) => ino,
            None => {
                proof {
                    let s = choose|s: Seq<u8>|
                        old(self).cur().space.is_cstr_at(path as int, s);
                    old(self).cur().space.lemma_cstr_unique(path as int, s, name@);
                }
                return -1;
            },
        };
        let dl = self.fs.inodes[ino].len();
        let image = self.fs.read_at(ino, 0, dl);
        proof {
            assert(image@ =~= self.fs.inodes@[ino as int]@);
        }
        let space2 = crate::task::build_image_space(&image);
        let new_pid = self.procs.len();
        let pass = self.procs[c].as_ref().unwrap().pass;
        let child = Pcb {
            pid: new_pid,
            parent: Some(c),
            children: Vec::new(),
            status: TaskStatus::Ready,
            exit_code: 0,
            priority: 16,
            pass,
            syscall_times: crate::task::zero_counters(),
            time_us: 0,
            fd_table: crate::task::default_fd_table(),
            space: space2,
            user_retval: 0,
        };
        self.procs.push(Some(child));
        let mut pcb = self.procs[c].take().unwrap();
        pcb.children.push(new_pid);
        self.procs[c] = Some(pcb);
        self.run_queue.push(new_pid);
        proof {
            let post = *self;
            let ci = c as int;
            let newp = new_pid as int;
            Self::lemma_wf_after_tree_push(*old(self), post, ci, newp);
            let s = choose|s: Seq<u8>| old(self).cur().space.is_cstr_at(path as int, s);
            old(self).cur().space.lemma_cstr_unique(path as int, s, name@);
            assert(post.proc_at(ci) =~~= Pcb {
                children: post.proc_at(ci).children,
                ..old(self).cur()
            });
        }
        new_pid as isize
    }

    /// The invariant survives appending a fresh Ready child of `c` in slot
    /// `newp` and enqueuing it, with `c`'s children extended by `newp`.
    proof fn lemma_wf_after_tree_push(pre: Kernel, post: Kernel, ci: int, newp: int)
        requires
            pre.wf(),
            pre.has_cur(),
            ci == pre.cur_pid(),
            newp == pre.procs@.len(),
            newp < MAX_PROCS,
            post.procs@.len() == newp + 1,
            post.live(newp),
            post.proc_at(newp).pid == newp,
            post.proc_at(newp).parent == Some(pre.current->0),
            post.proc_at(newp).children@.len() == 0,
            post.proc_at(newp).status == TaskStatus::Ready,
            post.proc_at(newp).wf_local(post.open_files@.len() as int),
            post.procs@[ci] == Some(
                Pcb { children: post.proc_at(ci).children, ..pre.cur() },
            ),
            post.proc_at(ci).children@ == pre.cur().children@.push(newp as usize),
            forall|p: int| 0 <= p < newp && p != ci ==> post.procs@[p] == pre.procs@[p],
            post.run_queue@ == pre.run_queue@.push(newp as usize),
            post.current == pre.current,
            post.open_files == pre.open_files,
            post.fs == pre.fs,
        ensures
            post.wf(),
    {
        assert forall|p: int| #[trigger] post.live(p) implies post.proc_ok(p) by {
            if p == newp {
                assert forall|k: int, k2: int|
                    0 <= k < k2 < post.proc_at(p).children@.len() implies post.proc_at(
                    p,
                ).children@[k] != post.proc_at(p).children@[k2] by {}
            } else {
                assert(pre.live(p));
                assert(pre.proc_ok(p));
                let a = pre.proc_at(p);
                if p != ci {
                    assert(post.proc_at(p) == a);
                }
                if p == ci {
                    assert forall|k: int| 0 <= k < post.proc_at(p).children@.len() implies {
                        let cc = #[trigger] post.proc_at(p).children@[k];
                        &&& post.live(cc as int)
                        &&& post.proc_at(cc as int).parent == Some(post.proc_at(p).pid)
                        &&& cc != p
                    } by {
                        if k < a.children@.len() {
                            let cc = a.children@[k];
                            assert(pre.live(cc as int));
                            assert(pre.proc_at(cc as int).parent == Some(a.pid));
                            assert(cc as int != newp);
                        } else {
                            assert(post.proc_at(p).children@[k] == newp as usize);
                        }
                    }
                    assert forall|k: int, k2: int|
                        0 <= k < k2 < post.proc_at(p).children@.len() implies post.proc_at(
                        p,
                    ).children@[k] != post.proc_at(p).children@[k2] by {
                        if k2 == post.proc_at(p).children@.len() - 1 {
                            let cc = a.children@[k];
                            assert(pre.live(cc as int));
                            assert(cc as int != newp);
                        }
                    }
                } else {
                    assert forall|k: int| 0 <= k < post.proc_at(p).children@.len() implies {
                        let cc = #[trigger] post.proc_at(p).children@[k];
                        &&& post.live(cc as int)
                        &&& post.proc_at(cc as int).parent == Some(post.proc_at(p).pid)
                        &&& cc != p
                    } by {
                        let cc = a.children@[k];
                        assert(pre.live(cc as int));
                        assert(pre.proc_at(cc as int).parent == Some(a.pid));
                        assert(cc as int != newp);
                    }
                }
            }
        }
        assert forall|i: int| 0 <= i < post.run_queue@.len() implies {
            let q = #[trigger] post.run_queue@[i];
            post.live(q as int) && post.proc_at(q as int).status == TaskStatus::Ready
        } by {
            if i < pre.run_queue@.len() {
                let q = pre.run_queue@[i];
                assert(pre.live(q as int));
                assert(q as int != newp);
                assert(q as int != ci) by {
                    if q as int == ci {
                        assert(pre.proc_at(ci).status == TaskStatus::Ready);
                    }
                }
            }
        }
        assert forall|i: int, j: int|
            0 <= i < j < post.run_queue@.len() implies post.run_queue@[i]
            != post.run_queue@[j] by {
            if j == post.run_queue@.len() - 1 {
                let q = pre.run_queue@[i];
                assert(pre.live(q as int));
            }
        }
        assert forall|p: int|
            post.live(p) && (#[trigger] post.proc_at(p)).status == TaskStatus::Running
            implies post.current == Some(p as usize) by {
            if p != newp && p != ci {
                assert(pre.live(p));
                assert(pre.proc_at(p).status == TaskStatus::Running);
            }
        }
        assert forall|p: int|
            post.live(p) && (#[trigger] post.proc_at(p)).status == TaskStatus::Ready
            implies post.in_queue(p) by {
            if p == newp {
                assert(post.run_queue@[post.run_queue@.len() - 1] == newp as usize);
            } else {
                assert(pre.live(p));
                if p != ci {
                    assert(pre.proc_at(p).status == TaskStatus::Ready);
                    assert(pre.in_queue(p));
                    let i = choose|i: int|
                        0 <= i < pre.run_queue@.len() && pre.run_queue@[i] == p;
                    assert(post.run_queue@[i] == p);
                }
            }
        }
        assert(pre.live(ci));
    }
}

impl Kernel {
    /// Reaps one exited child. `pid == -1` means any child. Returns `-1`,
    /// changing nothing, when no child matches `pid` (or the exit-code
    /// pointer does not translate); `-2`, changing nothing, when a matching
    /// child exists but none has exited yet. Otherwise the first matching
    /// Zombie child leaves the tree, its slot is released, its exit code is
    /// written into the caller's memory at `exit_code_ptr`, and its pid is
    /// returned. A reaped zombie's own children stay in the table unreaped
    /// (no re-parenting).
    pub fn sys_waitpid(&mut self, pid: isize, exit_code_ptr: usize) -> (r: isize)
        requires
            old(self).wf(),
            old(self).has_cur(),
        ensures
            final(self).wf(),
            !old(self).has_match(pid as int) ==> r == -1 && *final(self) == *old(self),
            old(self).has_match(pid as int) && !(exists|i: int|
                old(self).is_first_zombie_match(pid as int, i)) ==> r == -2 && *final(self)
                == *old(self),
            (exists|i: int| old(self).is_first_zombie_match(pid as int, i)) ==> ({
                let i = old(self).zombie_match_idx(pid as int);
                let ch = old(self).cur().children@[i];
                let writable = exit_code_ptr + 4 <= crate::MAX_VA && old(self).cur().space.range_mapped(exit_code_ptr as int, 4);
                &&& old(self).is_first_zombie_match(pid as int, i)
                &&& (!writable ==> r == -1 && *final(self) == *old(self))
                &&& (writable ==> {
                    let c = old(self).cur_pid();
                    let s1 = final(self).cur().space;
                    &&& r == ch
                    &&& final(self).procs@.len() == old(self).procs@.len()
                    &&& final(self).procs@[ch as int] is None
                    &&& forall|p: int|
                        0 <= p < old(self).procs@.len() && p != c && p != ch
                            ==> final(self).procs@[p] == old(self).procs@[p]
                    &&& final(self).proc_at(c) == Pcb {
                        children: final(self).proc_at(c).children,
                        space: s1,
                        ..old(self).cur()
                    }
                    &&& final(self).proc_at(c).children@ == old(self).cur().children@.remove(i)
                    &&& crate::mem::same_mem_except(
                        old(self).cur().space,
                        s1,
                        exit_code_ptr as int,
                        4,
                    )
                    &&& s1.mem_bytes(exit_code_ptr as int, 4) == crate::bytes::le32(
                        Self::exit_bits(old(self).proc_at(ch as int).exit_code),
                    )
                    &&& final(self).run_queue == old(self).run_queue
                    &&& final(self).current == old(self).current
                    &&& Self::same_outside_sched(*old(self), *final(self))
                })
            }),
    {
        let c = self.current.unwrap();
        let n = self.procs[c].as_ref().unwrap().children.len();
        let mut found_match: bool = false;
        let mut zom: Option<usize> = None;
        let mut i: usize = 0;
        while i < n
            invariant
                *self == *old(self),
                self.wf(),
                self.has_cur(),
                c == self.current->0,
                n == self.cur().children@.len(),
                i <= n,
                found_match <==> (exists|j: int|
                    0 <= j < i && Self::child_matches(pid as int, #[trigger] self.cur().children@[j])),
                match zom {
                    Some(z) => self.is_first_zombie_match(pid as int, z as int) && z < i,
                    None => forall|j: int|
                        0 <= j < i ==> !(Self::child_matches(
                            pid as int,
                            #[trigger] self.cur().children@[j],
                        ) && self.proc_at(self.cur().children@[j] as int).status
                            == TaskStatus::Zombie),
                },
            decreases n - i,
        {
            let ch = self.procs[c].as_ref().unwrap().children[i];
            let matches_arg = pid == -1 || ch as isize == pid;
            if matches_arg {
                found_match = true;
                if zom.is_none() {
                    proof {
                        assert(self.live(ch as int));
                    }
                    if self.procs[ch].as_ref().unwrap().status == TaskStatus::Zombie {
                        zom = Some(i);
                        proof {
                            assert(self.is_first_zombie_match(pid as int, i as int));
                        }
                    }
                }
            }
            i += 1;
        }
        if !found_match {
            proof {
                assert(!self.has_match(pid as int));
            }
            return -1;
        }
        let zi = match zom {
            Some(z) => z,
            None => {
                proof {
                    assert(!(exists|j: int| self.is_first_zombie_match(pid as int, j)));
                }
                return -2;
            },
        };
        proof {
            Self::lemma_zombie_match_unique(
                *self,
                pid as int,
                zi as int,
                self.zombie_match_idx(pid as int),
            );
        }
        if exit_code_ptr >= crate::MAX_VA || crate::MAX_VA - exit_code_ptr < 4 {
            return -1;
        }
        if !self.procs[c].as_ref().unwrap().space.check_range(exit_code_ptr, 4) {
            return -1;
        }
        let mut parent = self.procs[c].take().unwrap();
        let ch = parent.children.remove(zi);
        proof {
            assert(old(self).live(ch as int));
            assert(ch as int != c as int);
        }
        let code = self.procs[ch].as_ref().unwrap().exit_code;
        let bits: u32 = if code >= 0 {
            code as u32
        } else {
            ((code as i64) + 0x100000000i64) as u32
        };
        let mut v: Vec<u8> = Vec::new();
        crate::bytes::push_le32(&mut v, bits);
        proof {
            assert(v@ =~= crate::bytes::le32(bits));
        }
        let okw = parent.space.write_buffer(exit_code_ptr, &v);
        proof {
            assert(okw);
        }
        self.procs[c] = Some(parent);
        let _reaped = self.procs[ch].take();
        proof {
            let post = *self;
            let ci = c as int;
            let chi = ch as int;
            let zii = zi as int;
            let a = old(self).cur();
            assert(post.procs@[ci] == Some(
                Pcb {
                    children: post.proc_at(ci).children,
                    space: post.proc_at(ci).space,
                    ..a
                },
            ));
            assert forall|p: int| #[trigger] post.live(p) implies post.proc_ok(p) by {
                assert(p != chi);
                assert(old(self).live(p));
                assert(old(self).proc_ok(p));
                let b = post.proc_at(p);
                if p != ci {
                    assert(post.procs@[p] == old(self).procs@[p]);
                }
                assert forall|k: int| 0 <= k < b.children@.len() implies {
                    let cc = #[trigger] b.children@[k];
                    &&& post.live(cc as int)
                    &&& post.proc_at(cc as int).parent == Some(b.pid)
                    &&& cc != p
                } by {
                    let pk = if p == ci && k >= zii {
                        k + 1
                    } else {
                        k
                    };
                    let cc = old(self).proc_at(p).children@[pk];
                    assert(b.children@[k] == cc);
                    assert(old(self).live(cc as int));
                    assert(old(self).proc_at(cc as int).parent == Some(old(self).proc_at(
                        p,
                    ).pid));
                    assert(cc as int != chi) by {
                        if cc as int == chi {
                            assert(old(self).proc_at(chi).parent == Some(old(self).proc_at(
                                p,
                            ).pid));
                            assert(old(self).proc_at(chi).parent == Some(a.pid));
                            assert(p == ci);
                            assert(pk != zii);
                            assert(old(self).cur().children@[zii] == ch);
                        }
                    }
                    assert(post.proc_at(cc as int).parent == Some(b.pid));
                }
                if p == ci {
                    assert forall|k1: int, k2: int|
                        0 <= k1 < k2 < b.children@.len() implies b.children@[k1]
                        != b.children@[k2] by {
                        let p1 = if k1 >= zii {
                            k1 + 1
                        } else {
                            k1
                        };
                        let p2 = if k2 >= zii {
                            k2 + 1
                        } else {
                            k2
                        };
                        assert(b.children@[k1] == old(self).cur().children@[p1]);
                        assert(b.children@[k2] == old(self).cur().children@[p2]);
                    }
                }
            }
            assert forall|qi: int| 0 <= qi < post.run_queue@.len() implies {
                let q = #[trigger] post.run_queue@[qi];
                post.live(q as int) && post.proc_at(q as int).status == TaskStatus::Ready
            } by {
                let q = old(self).run_queue@[qi];
                assert(old(self).live(q as int));
                assert(old(self).proc_at(q as int).status == TaskStatus::Ready);
                assert(q as int != chi);
                assert(q as int != ci) by {
                    if q as int == ci {
                        assert(old(self).proc_at(ci).status == TaskStatus::Ready);
                    }
                }
            }
            assert forall|p: int|
                post.live(p) && (#[trigger] post.proc_at(p)).status == TaskStatus::Running
                implies post.current == Some(p as usize) by {
                assert(old(self).live(p));
                if p != ci {
                    assert(old(self).proc_at(p).status == TaskStatus::Running);
                }
            }
            assert forall|p: int|
                post.live(p) && (#[trigger] post.proc_at(p)).status == TaskStatus::Ready
                implies post.in_queue(p) by {
                assert(old(self).live(p));
                if p != ci {
                    assert(old(self).proc_at(p).status == TaskStatus::Ready);
                    assert(old(self).in_queue(p));
                    let qi = choose|qi: int|
                        0 <= qi < old(self).run_queue@.len() && old(self).run_queue@[qi] == p;
                    assert(post.run_queue@[qi] == p);
                }
            }
            assert(post.wf());
            assert(post.proc_at(ci) =~~= Pcb {
                children: post.proc_at(ci).children,
                space: post.proc_at(ci).space,
                ..a
            });
        }
        ch as isize
    }

    /// Two first-reapable-child indexes coincide.
    proof fn lemma_zombie_match_unique(k: Kernel, pid: int, i: int, j: int)
        requires
            k.is_first_zombie_match(pid, i),
            k.is_first_zombie_match(pid, j),
        ensures
            i == j,
    {
        let ch = k.cur().children@;
        if i < j {
            assert(Self::child_matches(pid, ch[i]));
        }
        if j < i {
            assert(Self::child_matches(pid, ch[j]));
        }
    }

    /// The running process's task information: status, per-syscall
    /// invocation counters, and running time in milliseconds.
    pub fn current_task_info(&self) -> (ti: crate::task::TaskInfo)
        requires
            self.wf(),
            self.has_cur(),
        ensures
            ti.status == self.cur().status,
            ti.syscall_times@ == self.cur().syscall_times@,
            ti.time == self.cur().time_us / crate::MICRO_PER_MILLISECONDS,
    {
        let c = self.current.unwrap();
        let p = self.procs[c].as_ref().unwrap();
        let mut times: Vec<u32> = Vec::new();
        let tn = p.syscall_times.len();
        let mut i: usize = 0;
        while i < tn
            invariant
                tn == p.syscall_times@.len(),
                i <= tn,
                times@.len() == i,
                forall|j: int| 0 <= j < i ==> times@[j] == p.syscall_times@[j],
            decreases tn - i,
        {
            let t = p.syscall_times[i];
            times.push(t);
            i += 1;
        }
        proof {
            assert(times@ =~= p.syscall_times@);
        }
        crate::task::TaskInfo {
            status: p.status,
            syscall_times: times,
            time: p.time_us / crate::MICRO_PER_MILLISECONDS,
        }
    }

    /// Writes the running process's `TaskInfo` verbatim into the caller's
    /// memory at `ti`: the status word, every syscall counter, and the
    /// running time in milliseconds, each little-endian, split across pages
    /// as needed. Fails with `-1`, changing nothing, when the target bytes
    /// are not all mapped.
    pub fn sys_task_info(&mut self, ti: usize) -> (r: isize)
        requires
            old(self).wf(),
            old(self).has_cur(),
        ensures
            final(self).wf(),
            ({
                let total = 12 + 4 * MAX_SYSCALL_NUM;
                let img = crate::task::taskinfo_bytes(
                    old(self).cur().status,
                    old(self).cur().syscall_times@,
                    old(self).cur().time_us as int / (crate::MICRO_PER_MILLISECONDS as int),
                );
                let s0 = old(self).cur().space;
                let writable = ti + total <= crate::MAX_VA && s0.range_mapped(
                    ti as int,
                    total as int,
                );
                let s1 = final(self).cur().space;
                &&& (r == 0 <==> writable)
                &&& (r != 0 ==> r == -1 && *final(self) == *old(self))
                &&& (r == 0 ==> {
                    &&& final(self).procs@ == old(self).procs@.update(
                        old(self).cur_pid(),
                        Some(Pcb { space: s1, ..old(self).cur() }),
                    )
                    &&& s1.mem_bytes(ti as int, total as int) == img
                    &&& crate::mem::same_mem_except(s0, s1, ti as int, total as int)
                    &&& final(self).run_queue == old(self).run_queue
                    &&& final(self).current == old(self).current
                    &&& Self::same_outside_sched(*old(self), *final(self))
                })
            }),
    {
        let c = self.current.unwrap();
        let mut v: Vec<u8> = Vec::new();
        let status = self.procs[c].as_ref().unwrap().status;
        let code: u32 = match status {
            TaskStatus::Ready => 0,
            TaskStatus::Running => 1,
            TaskStatus::Zombie => 2,
        };
        crate::bytes::push_le32(&mut v, code);
        let tn = self.procs[c].as_ref().unwrap().syscall_times.len();
        let ghost times = self.procs@[c as int]->0.syscall_times@;
        let mut i: usize = 0;
        while i < tn
            invariant
                *self == *old(self),
                self.wf(),
                self.has_cur(),
                c == self.current->0,
                tn == self.cur().syscall_times@.len(),
                times == self.cur().syscall_times@,
                i <= tn,
                v@.len() == 4 + 4 * i,
                forall|x: int|
                    0 <= x < 4 ==> #[trigger] v@[x] == crate::bytes::le32(
                        crate::task::status_code(self.cur().status),
                    )[x],
                forall|x: int|
                    4 <= x < v@.len() ==> #[trigger] v@[x] == crate::task::counters_bytes(
                        times,
                    )[x - 4],
            decreases tn - i,
        {
            let t = self.procs[c].as_ref().unwrap().syscall_times[i];
            let ghost vpre = v@;
            crate::bytes::push_le32(&mut v, t);
            proof {
                assert forall|x: int|
                    4 <= x < v@.len() implies #[trigger] v@[x] == crate::task::counters_bytes(
                    times,
                )[x - 4] by {
                    if x < vpre.len() {
                        assert(v@[x] == vpre[x]);
                    } else {
                        let y = x - 4;
                        assert(v@[x] == crate::bytes::le32(t)[x - vpre.len()]);
                        assert(y / 4 == i && y % 4 == x - vpre.len()) by {
                            vstd::arithmetic::div_mod::lemma_fundamental_div_mod_converse(
                                y,
                                4,
                                i as int,
                                x - vpre.len(),
                            );
                        }
                    }
                }
            }
            i += 1;
        }
        let time_ms = self.procs[c].as_ref().unwrap().time_us / crate::MICRO_PER_MILLISECONDS;
        crate::bytes::push_le64(&mut v, time_ms as u64);
        proof {
            assert(v@ =~= crate::task::taskinfo_bytes(
                self.cur().status,
                times,
                self.cur().time_us as int / (crate::MICRO_PER_MILLISECONDS as int),
            ));
        }
        let total = 12 + 4 * MAX_SYSCALL_NUM;
        if ti >= crate::MAX_VA || crate::MAX_VA - ti < total {
            return -1;
        }
        if !self.procs[c].as_ref().unwrap().space.check_range(ti, total) {
            return -1;
        }
        let mut pcb = self.procs[c].take().unwrap();
        let ok = pcb.space.write_buffer(ti, &v);
        self.procs[c] = Some(pcb);
        proof {
            assert(ok);
            let ci = c as int;
            assert(self.procs@ =~= old(self).procs@.update(
                ci,
                Some(Pcb { space: self.proc_at(ci).space, ..old(self).cur() }),
            ));
            Self::lemma_wf_after_local_update(*old(self), *self, ci);
        }
        0
    }
}

impl Kernel {
    /// A zero-terminated path is stored at `va` in the caller's memory.
    pub open spec fn has_path(self, va: int) -> bool {
        exists|s: Seq<u8>| self.cur().space.is_cstr_at(va, s)
    }

    /// The path stored at `va` (meaningful only when `has_path`).
    pub open spec fn path_at(self, va: int) -> Seq<u8> {
        choose|s: Seq<u8>| self.cur().space.is_cstr_at(va, s)
    }

    /// Whether descriptor `fd` of the running process holds a handle.
    pub open spec fn fd_entry(self, fd: int) -> Option<FdEntry> {
        if 0 <= fd < self.cur().fd_table@.len() {
            self.cur().fd_table@[fd]
        } else {
            None
        }
    }

    /// Whether a handle admits writes.
    pub open spec fn entry_writable(self, e: FdEntry) -> bool {
        match e {
            FdEntry::Stdin => false,
            FdEntry::Stdout => true,
            FdEntry::File(of) => self.open_files@[of as int].writable,
        }
    }

    /// Whether a handle admits reads.
    pub open spec fn entry_readable(self, e: FdEntry) -> bool {
        match e {
            FdEntry::Stdin => true,
            FdEntry::Stdout => false,
            FdEntry::File(of) => self.open_files@[of as int].readable,
        }
    }

    /// The invariant survives replacing the running process's volatile
    /// fields, growing the open-file table, and changing the filesystem, as
    /// long as every handle still points at a valid inode.
    proof fn lemma_wf_after_update(pre: Kernel, post: Kernel, p: int)
        requires
            pre.wf(),
            pre.live(p),
            post.procs@ == pre.procs@.update(p, Some(post.proc_at(p))),
            post.proc_at(p).pid == pre.proc_at(p).pid,
            post.proc_at(p).parent == pre.proc_at(p).parent,
            post.proc_at(p).children == pre.proc_at(p).children,
            post.proc_at(p).status == pre.proc_at(p).status,
            post.proc_at(p).wf_local(post.open_files@.len() as int),
            post.run_queue == pre.run_queue,
            post.current == pre.current,
            pre.open_files@.len() <= post.open_files@.len(),
            forall|f: int|
                0 <= f < post.open_files@.len() ==> (#[trigger] post.open_files@[f]).inode
                    < post.fs.inodes@.len() && post.open_files@[f].offset <= MAX_FILE,
            post.fs.wf(),
        ensures
            post.wf(),
    {
        assert forall|q: int| #[trigger] post.live(q) implies post.proc_ok(q) by {
            assert(pre.live(q));
            assert(pre.proc_ok(q));
            if q != p {
                assert(post.proc_at(q) == pre.proc_at(q));
            }
            assert(post.proc_at(q).wf_local(post.open_files@.len() as int)) by {
                if q != p {
                    let b = post.proc_at(q);
                    assert(b.wf_local(pre.open_files@.len() as int));
                    assert forall|f: int| 0 <= f < b.fd_table@.len() implies match (
                    #[trigger] b.fd_table@[f]) {
                        Some(FdEntry::File(of)) => of < post.open_files@.len(),
                        _ => true,
                    } by {
                        assert(match b.fd_table@[f] {
                            Some(FdEntry::File(of)) => of < pre.open_files@.len(),
                            _ => true,
                        });
                    }
                }
            }
            assert forall|k: int| 0 <= k < post.proc_at(q).children@.len() implies {
                let cc = #[trigger] post.proc_at(q).children@[k];
                &&& post.live(cc as int)
                &&& post.proc_at(cc as int).parent == Some(post.proc_at(q).pid)
                &&& cc != q
            } by {
                let cc = pre.proc_at(q).children@[k];
                assert(post.proc_at(q).children@ == pre.proc_at(q).children@);
                assert(pre.live(cc as int));
                assert(pre.proc_at(cc as int).parent == Some(pre.proc_at(q).pid));
                if cc as int != p {
                    assert(post.proc_at(cc as int) == pre.proc_at(cc as int));
                }
            }
        }
        assert forall|i: int| 0 <= i < post.run_queue@.len() implies {
            let q = #[trigger] post.run_queue@[i];
            post.live(q as int) && post.proc_at(q as int).status == TaskStatus::Ready
        } by {
            let q = post.run_queue@[i];
            assert(pre.live(q as int) && pre.proc_at(q as int).status == TaskStatus::Ready);
            if q as int != p {
                assert(post.proc_at(q as int) == pre.proc_at(q as int));
            }
        }
        assert forall|q: int|
            post.live(q) && (#[trigger] post.proc_at(q)).status == TaskStatus::Running
            implies post.current == Some(q as usize) by {
            if q != p {
                assert(pre.proc_at(q).status == TaskStatus::Running);
            }
        }
        assert forall|q: int|
            post.live(q) && (#[trigger] post.proc_at(q)).status == TaskStatus::Ready
            implies post.in_queue(q) by {
            if q != p {
                assert(pre.proc_at(q).status == TaskStatus::Ready);
            }
            assert(pre.in_queue(q));
            let i = choose|i: int| 0 <= i < pre.run_queue@.len() && pre.run_queue@[i] == q;
            assert(post.run_queue@[i] == q);
        }
        if pre.current is Some {
            let cc = pre.current->0 as int;
            if cc != p {
                assert(post.proc_at(cc) == pre.proc_at(cc));
            }
        }
    }

    /// Writes `len` bytes from the caller's buffer at `buf` through
    /// descriptor `fd` and returns the count written. The standard output
    /// stream appends to the console sink; a regular file writes at the
    /// handle's cursor, extending the file, and advances the cursor. Fails
    /// with `-1`, changing nothing, on a bad or non-writable descriptor, an
    /// untranslatable buffer, or a write past the largest file size.
    pub fn sys_write(&mut self, fd: usize, buf: usize, len: usize) -> (r: isize)
        requires
            old(self).wf(),
            old(self).has_cur(),
        ensures
            final(self).wf(),
            ({
                let e = old(self).fd_entry(fd as int);
                let buf_ok = buf + len <= crate::MAX_VA && old(self).cur().space.range_mapped(
                    buf as int,
                    len as int,
                );
                let data = old(self).cur().space.mem_bytes(buf as int, len as int);
                &&& (e is None || !old(self).entry_writable(e->0) ==> r == -1 && *final(self)
                    == *old(self))
                &&& (e is Some && old(self).entry_writable(e->0) && !buf_ok ==> r == -1 && *final(self) == *old(self))
                &&& (e == Some(FdEntry::Stdout) && buf_ok ==> r == len && final(self).console_out@ == old(self).console_out@ + data && final(self).procs == old(self).procs && final(self).run_queue == old(self).run_queue && final(self).current
                    == old(self).current && final(self).open_files == old(self).open_files
                    && final(self).fs == old(self).fs && final(self).clock_us == old(self).clock_us)
                &&& (forall|of: usize|
                    e == Some(FdEntry::File(of)) && old(self).entry_writable(e->0) && buf_ok
                        ==> ({
                        let h = old(self).open_files@[of as int];
                        &&& (len > MAX_FILE - h.offset ==> r == -1 && *final(self) == *old(self))
                        &&& (len <= MAX_FILE - h.offset ==> {
                            &&& r == len
                            &&& final(self).fs.inodes@ == old(self).fs.inodes@.update(
                                h.inode as int,
                                final(self).fs.inodes@[h.inode as int],
                            )
                            &&& final(self).fs.inodes@[h.inode as int]@ == crate::fs::file_write(
                                old(self).fs.inodes@[h.inode as int]@,
                                h.offset as int,
                                data,
                            )
                            &&& final(self).fs.names@ == old(self).fs.names@
                            &&& final(self).open_files@ == old(self).open_files@.update(
                                of as int,
                                crate::task::OpenFile {
                                    offset: (h.offset + len) as usize,
                                    ..h
                                },
                            )
                            &&& final(self).procs == old(self).procs
                            &&& final(self).run_queue == old(self).run_queue
                            &&& final(self).current == old(self).current
                            &&& final(self).clock_us == old(self).clock_us
                            &&& final(self).console_out == old(self).console_out
                        })
                    }))
            }),
    {
        let c = self.current.unwrap();
        if fd >= self.procs[c].as_ref().unwrap().fd_table.len() {
            return -1;
        }
        let entry = match self.procs[c].as_ref().unwrap().fd_table[fd] {
            Some(e) => e,
            None => {
                return -1;
            },
        };
        match entry {
            FdEntry::Stdin => {
                return -1;
            },
            FdEntry::Stdout => {},
            FdEntry::File(of) => {
                proof {
                    assert(old(self).proc_ok(c as int));
                    assert(match old(self).cur().fd_table@[fd as int] {
                        Some(FdEntry::File(o)) => o < old(self).open_files@.len(),
                        _ => true,
                    });
                    assert(old(self).open_files@[of as int].inode < old(self).fs.inodes@.len());
                }
                if !self.open_files[of].writable {
                    return -1;
                }
            },
        }
        if len > crate::MAX_VA || buf > crate::MAX_VA - len {
            return -1;
        }
        let mut data = match self.procs[c].as_ref().unwrap().space.read_buffer(buf, len) {
            Some(b) => b,
            None => {
                return -1;
            },
        };
        match entry {
            FdEntry::Stdin => -1,
            FdEntry::Stdout => {
                self.console_out.append(&mut data);
                proof {
                    Self::lemma_wf_same_core(*old(self), *self);
                }
                len as isize
            },
            FdEntry::File(of) => {
                let h = self.open_files[of];
                if len > MAX_FILE - h.offset {
                    return -1;
                }
                self.fs.write_at(h.inode, h.offset, &data);
                self.open_files[of] = crate::task::OpenFile {
                    readable: h.readable,
                    writable: h.writable,
                    inode: h.inode,
                    offset: h.offset + len,
                };
                proof {
                    assert(self.procs@ =~= old(self).procs@.update(
                        old(self).cur_pid(),
                        Some(self.cur()),
                    ));
                    Self::lemma_wf_after_update(*old(self), *self, old(self).cur_pid());
                    assert(self.open_files@ =~= old(self).open_files@.update(
                        of as int,
                        crate::task::OpenFile { offset: (h.offset + len) as usize, ..h },
                    ));
                }
                len as isize
            },
        }
    }

    /// Reads up to `len` bytes through descriptor `fd` into the caller's
    /// buffer at `buf` and returns the count read. The standard input
    /// stream of this model has no pending bytes and reads zero; a regular
    /// file reads from the handle's cursor up to the end of the file and
    /// advances the cursor. Fails with `-1`, changing nothing, on a bad or
    /// non-readable descriptor or an untranslatable buffer.
    pub fn sys_read(&mut self, fd: usize, buf: usize, len: usize) -> (r: isize)
        requires
            old(self).wf(),
            old(self).has_cur(),
        ensures
            final(self).wf(),
            ({
                let e = old(self).fd_entry(fd as int);
                let buf_ok = buf + len <= crate::MAX_VA && old(self).cur().space.range_mapped(
                    buf as int,
                    len as int,
                );
                &&& (e is None || !old(self).entry_readable(e->0) ==> r == -1 && *final(self)
                    == *old(self))
                &&& (e is Some && old(self).entry_readable(e->0) && !buf_ok ==> r == -1 && *final(self) == *old(self))
                &&& (e == Some(FdEntry::Stdin) && buf_ok ==> r == 0 && *final(self) == *old(self))
                &&& (forall|of: usize|
                    e == Some(FdEntry::File(of)) && old(self).entry_readable(e->0) && buf_ok
                        ==> ({
                        let h = old(self).open_files@[of as int];
                        let dlen = old(self).fs.inodes@[h.inode as int]@.len() as int;
                        let n = if h.offset >= dlen {
                            0int
                        } else if len <= dlen - h.offset {
                            len as int
                        } else {
                            dlen - h.offset
                        };
                        let s1 = final(self).cur().space;
                        &&& r == n
                        &&& (n > 0 ==> s1.mem_bytes(buf as int, n) == old(self).fs.inodes@[
                            h.inode as int
                        ]@.subrange(h.offset as int, h.offset + n))
                        &&& crate::mem::same_mem_except(
                            old(self).cur().space,
                            s1,
                            buf as int,
                            n,
                        )
                        &&& final(self).procs@ == old(self).procs@.update(
                            old(self).cur_pid(),
                            Some(Pcb { space: s1, ..old(self).cur() }),
                        )
                        &&& final(self).open_files@ == old(self).open_files@.update(
                            of as int,
                            crate::task::OpenFile { offset: (h.offset + n) as usize, ..h },
                        )
                        &&& final(self).fs == old(self).fs
                        &&& final(self).run_queue == old(self).run_queue
                        &&& final(self).current == old(self).current
                        &&& final(self).clock_us == old(self).clock_us
                        &&& final(self).console_out == old(self).console_out
                    }))
            }),
    {
        let c = self.current.unwrap();
        if fd >= self.procs[c].as_ref().unwrap().fd_table.len() {
            return -1;
        }
        let entry = match self.procs[c].as_ref().unwrap().fd_table[fd] {
            Some(e) => e,
            None => {
                return -1;
            },
        };
        match entry {
            FdEntry::Stdout => {
                return -1;
            },
            FdEntry::Stdin => {},
            FdEntry::File(of) => {
                proof {
                    assert(old(self).proc_ok(c as int));
                    assert(match old(self).cur().fd_table@[fd as int] {
                        Some(FdEntry::File(o)) => o < old(self).open_files@.len(),
                        _ => true,
                    });
                    assert(old(self).open_files@[of as int].inode < old(self).fs.inodes@.len());
                }
                if !self.open_files[of].readable {
                    return -1;
                }
            },
        }
        if len > crate::MAX_VA || buf > crate::MAX_VA - len {
            return -1;
        }
        if !self.procs[c].as_ref().unwrap().space.check_range(buf, len) {
            return -1;
        }
        match entry {
            FdEntry::Stdout => -1,
            FdEntry::Stdin => 0,
            FdEntry::File(of) => {
                let h = self.open_files[of];
                let dlen = self.fs.inodes[h.inode].len();
                let n = if h.offset >= dlen {
                    0
                } else if len <= dlen - h.offset {
                    len
                } else {
                    dlen - h.offset
                };
                let chunk = if n == 0 {
                    Vec::new()
                } else {
                    self.fs.read_at(h.inode, h.offset, n)
                };
                proof {
                    if n > 0 {
                        assert(chunk@ =~= old(self).fs.inodes@[h.inode as int]@.subrange(
                            h.offset as int,
                            h.offset + n,
                        ));
                    } else {
                        assert(chunk@ =~= Seq::<u8>::empty());
                    }
                }
                let mut pcb = self.procs[c].take().unwrap();
                proof {
                    assert(pcb.space.range_mapped(buf as int, n as int));
                }
                let ok = pcb.space.write_buffer(buf, &chunk);
                self.procs[c] = Some(pcb);
                proof {
                    assert(ok);
                    assert(self.procs@ =~= old(self).procs@.update(
                        old(self).cur_pid(),
                        Some(Pcb { space: self.cur().space, ..old(self).cur() }),
                    ));
                }
                self.open_files[of] = crate::task::OpenFile {
                    readable: h.readable,
                    writable: h.writable,
                    inode: h.inode,
                    offset: h.offset + n,
                };
                proof {
                    Self::lemma_wf_after_update(*old(self), *self, old(self).cur_pid());
                    assert(self.open_files@ =~= old(self).open_files@.update(
                        of as int,
                        crate::task::OpenFile { offset: (h.offset + n) as usize, ..h },
                    ));
                }
                n as isize
            },
        }
    }
}

impl Kernel {
    /// The open flags the model understands: write-only, read-write,
    /// create, truncate.
    pub open spec fn flags_valid(flags: u32) -> bool {
        flags & 0xfffff9fcu32 == 0
    }

    /// Index of the first free descriptor slot, or the table length when a
    /// new slot must be appended.
    pub open spec fn free_fd(t: Seq<Option<FdEntry>>) -> int {
        if exists|i: int| 0 <= i < t.len() && t[i] is None {
            choose|i: int|
                0 <= i < t.len() && t[i] is None && (forall|j: int| 0 <= j < i ==> t[j] is Some)
        } else {
            t.len() as int
        }
    }

    /// Opens the file linked under the zero-terminated path read from the
    /// caller's memory and returns a fresh descriptor for it. Flag bit 0
    /// selects write-only, bit 1 read-write, bit 9 creates a missing file,
    /// bit 10 truncates (a create of an existing file also truncates, as
    /// does truncate alone). Fails with `-1`, changing nothing, on an
    /// untranslatable path, undefined flag bits, a missing file without the
    /// create flag, a full descriptor table, or a full directory; in
    /// particular a failed open allocates no descriptor.
    pub fn sys_open(&mut self, path: usize, flags: u32) -> (r: isize)
        requires
            old(self).wf(),
            old(self).has_cur(),
        ensures
            final(self).wf(),
            !old(self).has_path(path as int) ==> r == -1 && *final(self) == *old(self),
            !Self::flags_valid(flags) ==> r == -1 && *final(self) == *old(self),
            old(self).has_path(path as int) && Self::flags_valid(flags) ==> ({
                let name = old(self).path_at(path as int);
                let t = old(self).cur().fd_table@;
                let fd = Self::free_fd(t);
                let no_slot = fd >= crate::MAX_FDS;
                let known = old(self).fs.has_name(name);
                let creat = flags & 512u32 != 0;
                let trunc = flags & 1024u32 != 0;
                &&& (!known && !creat ==> r == -1 && *final(self) == *old(self))
                &&& ((known || creat) && no_slot ==> r == -1 && *final(self) == *old(self))
                &&& (!known && creat && !no_slot && (old(self).fs.names@.len() >= crate::MAX_LINKS
                    || old(self).fs.inodes@.len() >= crate::MAX_LINKS) ==> r == -1 && *final(self) == *old(self))
                &&& ((known || (creat && old(self).fs.names@.len() < crate::MAX_LINKS && old(self).fs.inodes@.len() < crate::MAX_LINKS)) && !no_slot ==> {
                    let ino = if known {
                        old(self).fs.inode_of(name)
                    } else {
                        old(self).fs.inodes@.len() as int
                    };
                    let cleared = !known || creat || trunc;
                    let handle = crate::task::OpenFile {
                        readable: flags & 1u32 == 0,
                        writable: flags & 1u32 != 0 || flags & 2u32 != 0,
                        inode: ino as usize,
                        offset: 0,
                    };
                    &&& r == fd
                    &&& final(self).open_files@ == old(self).open_files@.push(handle)
                    &&& final(self).cur().fd_table@ == (if fd < t.len() {
                        t.update(fd, Some(FdEntry::File(old(self).open_files@.len() as usize)))
                    } else {
                        t.push(Some(FdEntry::File(old(self).open_files@.len() as usize)))
                    })
                    &&& final(self).procs@ == old(self).procs@.update(
                        old(self).cur_pid(),
                        Some(
                            Pcb {
                                fd_table: final(self).cur().fd_table,
                                ..old(self).cur()
                            },
                        ),
                    )
                    &&& (known ==> final(self).fs.names@ == old(self).fs.names@ && final(self).fs.inodes@.len() == old(self).fs.inodes@.len())
                    &&& (!known ==> final(self).fs.names@ == old(self).fs.names@.push(
                        crate::fs::DirEntry { name: final(self).fs.names@.last().name, inode: ino as usize },
                    ) && final(self).fs.names@.last().name@ == name && final(self).fs.inodes@.len() == old(self).fs.inodes@.len() + 1)
                    &&& (cleared ==> final(self).fs.inodes@[ino]@.len() == 0)
                    &&& (!cleared ==> final(self).fs.inodes@[ino]@ == old(self).fs.inodes@[
                        ino
                    ]@)
                    &&& forall|i: int|
                        0 <= i < old(self).fs.inodes@.len() && i != ino ==> final(self).fs.inodes@[i] == old(self).fs.inodes@[i]
                    &&& final(self).run_queue == old(self).run_queue
                    &&& final(self).current == old(self).current
                    &&& final(self).clock_us == old(self).clock_us
                    &&& final(self).console_out == old(self).console_out
                })
            }),
    {
        if path >= crate::MAX_VA {
            return -1;
        }
        let c = self.current.unwrap();
        let name = match self.procs[c].as_ref().unwrap().space.read_cstr(path) {
            Some(n) => n,
            None => {
                return -1;
            },
        };
        proof {
            let s = choose|s: Seq<u8>| old(self).cur().space.is_cstr_at(path as int, s);
            old(self).cur().space.lemma_cstr_unique(path as int, s, name@);
        }
        if flags & 0xfffff9fcu32 != 0 {
            return -1;
        }
        let creat = flags & 512u32 != 0;
        let trunc = flags & 1024u32 != 0;
        let looked = self.fs.lookup(&name);
        if looked.is_none() && !creat {
            return -1;
        }
        let t_len = self.procs[c].as_ref().unwrap().fd_table.len();
        let mut slot: usize = 0;
        let mut have_slot: bool = false;
        let mut i: usize = 0;
        while i < t_len
            invariant
                *self == *old(self),
                self.wf(),
                self.has_cur(),
                self.live(c as int),
                c == self.current->0,
                t_len == self.cur().fd_table@.len(),
                i <= t_len,
                !have_slot ==> forall|j: int| 0 <= j < i ==> self.cur().fd_table@[j] is Some,
                have_slot ==> slot < i && self.cur().fd_table@[slot as int] is None && (
                forall|j: int| 0 <= j < slot ==> self.cur().fd_table@[j] is Some),
            decreases t_len - i,
        {
            if !have_slot {
                if self.procs[c].as_ref().unwrap().fd_table[i].is_none() {
                    slot = i;
                    have_slot = true;
                }
            }
            i += 1;
        }
        proof {
            let t = self.cur().fd_table@;
            if have_slot {
                assert(Self::free_fd(t) == slot as int) by {
                    assert(t[slot as int] is None && (forall|j: int|
                        0 <= j < slot ==> t[j] is Some));
                    let w = choose|w: int|
                        0 <= w < t.len() && t[w] is None && (forall|j: int|
                            0 <= j < w ==> t[j] is Some);
                    if w < slot as int {
                        assert(t[w] is Some);
                    }
                    if w > slot as int {
                        assert(t[slot as int] is Some);
                    }
                }
            } else {
                assert(Self::free_fd(t) == t.len()) by {
                    if exists|j: int| 0 <= j < t.len() && t[j] is None {
                        let w = choose|j: int| 0 <= j < t.len() && t[j] is None;
                        assert(t[w] is Some);
                    }
                }
            }
        }
        let fd = if have_slot {
            slot
        } else {
            t_len
        };
        if !have_slot && t_len >= crate::MAX_FDS {
            return -1;
        }
        let ino = match looked {
            Some(ino) => {
                if creat || trunc {
                    self.fs.truncate(ino);
                }
                ino
            },
            None => {
                if self.fs.names.len() >= crate::MAX_LINKS || self.fs.inodes.len()
                    >= crate::MAX_LINKS {
                    return -1;
                }
                self.fs.create(name)
            },
        };
        let handle = crate::task::OpenFile {
            readable: flags & 1u32 == 0,
            writable: flags & 1u32 != 0 || flags & 2u32 != 0,
            inode: ino,
            offset: 0,
        };
        let of_idx = self.open_files.len();
        self.open_files.push(handle);
        let mut pcb = self.procs[c].take().unwrap();
        if have_slot {
            pcb.fd_table[slot] = Some(FdEntry::File(of_idx));
        } else {
            pcb.fd_table.push(Some(FdEntry::File(of_idx)));
        }
        self.procs[c] = Some(pcb);
        proof {
            assert(self.procs@ =~= old(self).procs@.update(
                old(self).cur_pid(),
                Some(Pcb { fd_table: self.cur().fd_table, ..old(self).cur() }),
            ));
            assert(self.cur().wf_local(self.open_files@.len() as int)) by {
                assert forall|f: int| 0 <= f < self.cur().fd_table@.len() implies match (
                #[trigger] self.cur().fd_table@[f]) {
                    Some(FdEntry::File(o)) => o < self.open_files@.len(),
                    _ => true,
                } by {
                    if f < old(self).cur().fd_table@.len() && f != fd {
                        assert(self.cur().fd_table@[f] == old(self).cur().fd_table@[f]);
                        assert(match old(self).cur().fd_table@[f] {
                            Some(FdEntry::File(o)) => o < old(self).open_files@.len(),
                            _ => true,
                        });
                    }
                }
            }
            assert forall|f: int|
                0 <= f < self.open_files@.len() implies (
            #[trigger] self.open_files@[f]).inode < self.fs.inodes@.len()
                && self.open_files@[f].offset <= MAX_FILE by {
                if f < old(self).open_files@.len() {
                    assert(self.open_files@[f] == old(self).open_files@[f]);
                    assert(old(self).open_files@[f].inode < old(self).fs.inodes@.len());
                }
            }
            Self::lemma_wf_after_update(*old(self), *self, old(self).cur_pid());
            assert(self.open_files@ =~= old(self).open_files@.push(handle));
        }
        fd as isize
    }

    /// Releases descriptor `fd` of the running process; the shared handle
    /// itself stays for any other table still referencing it. Fails with
    /// `-1`, changing nothing, on a bad or already-closed descriptor.
    pub fn sys_close(&mut self, fd: usize) -> (r: isize)
        requires
            old(self).wf(),
            old(self).has_cur(),
        ensures
            final(self).wf(),
            old(self).fd_entry(fd as int) is None ==> r == -1 && *final(self) == *old(self),
            old(self).fd_entry(fd as int) is Some ==> {
                &&& r == 0
                &&& final(self).cur().fd_table@ == old(self).cur().fd_table@.update(
                    fd as int,
                    None::<FdEntry>,
                )
                &&& final(self).procs@ == old(self).procs@.update(
                    old(self).cur_pid(),
                    Some(Pcb { fd_table: final(self).cur().fd_table, ..old(self).cur() }),
                )
                &&& final(self).run_queue == old(self).run_queue
                &&& final(self).current == old(self).current
                &&& Self::same_outside_sched(*old(self), *final(self))
            },
    {
        let c = self.current.unwrap();
        if fd >= self.procs[c].as_ref().unwrap().fd_table.len() {
            return -1;
        }
        if self.procs[c].as_ref().unwrap().fd_table[fd].is_none() {
            return -1;
        }
        let mut pcb = self.procs[c].take().unwrap();
        pcb.fd_table[fd] = None;
        self.procs[c] = Some(pcb);
        proof {
            assert(self.procs@ =~= old(self).procs@.update(
                old(self).cur_pid(),
                Some(Pcb { fd_table: self.cur().fd_table, ..old(self).cur() }),
            ));
            assert(self.cur().wf_local(self.open_files@.len() as int)) by {
                assert forall|f: int| 0 <= f < self.cur().fd_table@.len() implies match (
                #[trigger] self.cur().fd_table@[f]) {
                    Some(FdEntry::File(o)) => o < self.open_files@.len(),
                    _ => true,
                } by {
                    if f != fd {
                        assert(self.cur().fd_table@[f] == old(self).cur().fd_table@[f]);
                        assert(match old(self).cur().fd_table@[f] {
                            Some(FdEntry::File(o)) => o < old(self).open_files@.len(),
                            _ => true,
                        });
                    }
                }
            }
            Self::lemma_wf_after_update(*old(self), *self, old(self).cur_pid());
        }
        0
    }

    /// Writes a `Stat` record for descriptor `fd` verbatim into the
    /// caller's memory at `st`: device zero, inode number, regular-file
    /// mode, and the link count of the backing inode. Only regular-file
    /// handles support it: the standard streams fail with `-1`, as do a bad
    /// descriptor or an untranslatable target; a failure changes nothing.
    pub fn sys_fstat(&mut self, fd: usize, st: usize) -> (r: isize)
        requires
            old(self).wf(),
            old(self).has_cur(),
        ensures
            final(self).wf(),
            ({
                let e = old(self).fd_entry(fd as int);
                &&& (!(e matches Some(FdEntry::File(_))) ==> r == -1 && *final(self) == *old(self))
                &&& (forall|of: usize|
                    e == Some(FdEntry::File(of)) ==> ({
                        let h = old(self).open_files@[of as int];
                        let img = crate::task::stat_bytes(
                            h.inode as u64,
                            crate::fs::count_links(old(self).fs.names@, h.inode as int) as u32,
                        );
                        let s0 = old(self).cur().space;
                        let writable = st + crate::STAT_SIZE <= crate::MAX_VA && s0.range_mapped(
                            st as int,
                            crate::STAT_SIZE as int,
                        );
                        let s1 = final(self).cur().space;
                        &&& (!writable ==> r == -1 && *final(self) == *old(self))
                        &&& (writable ==> {
                            &&& r == 0
                            &&& s1.mem_bytes(st as int, crate::STAT_SIZE as int) == img
                            &&& crate::mem::same_mem_except(
                                s0,
                                s1,
                                st as int,
                                crate::STAT_SIZE as int,
                            )
                            &&& final(self).procs@ == old(self).procs@.update(
                                old(self).cur_pid(),
                                Some(Pcb { space: s1, ..old(self).cur() }),
                            )
                            &&& final(self).run_queue == old(self).run_queue
                            &&& final(self).current == old(self).current
                            &&& Self::same_outside_sched(*old(self), *final(self))
                        })
                    }))
            }),
    {
        let c = self.current.unwrap();
        if fd >= self.procs[c].as_ref().unwrap().fd_table.len() {
            return -1;
        }
        let of = match self.procs[c].as_ref().unwrap().fd_table[fd] {
            Some(FdEntry::File(of)) => of,
            _ => {
                return -1;
            },
        };
        proof {
            assert(old(self).proc_ok(c as int));
            assert(match old(self).cur().fd_table@[fd as int] {
                Some(FdEntry::File(o)) => o < old(self).open_files@.len(),
                _ => true,
            });
        }
        let h = self.open_files[of];
        let nlink = self.fs.nlink(h.inode);
        let mut v: Vec<u8> = Vec::new();
        crate::bytes::push_le64(&mut v, 0);
        crate::bytes::push_le64(&mut v, h.inode as u64);
        crate::bytes::push_le32(&mut v, crate::MODE_FILE);
        crate::bytes::push_le32(&mut v, nlink);
        let mut z: usize = 0;
        let ghost head = v@;
        while z < crate::STAT_SIZE - 24
            invariant
                z <= crate::STAT_SIZE - 24,
                v@.len() == head.len() + z,
                v@.take(head.len() as int) == head,
                forall|j: int| head.len() <= j < v@.len() ==> #[trigger] v@[j] == 0,
            decreases crate::STAT_SIZE - 24 - z,
        {
            v.push(0);
            proof {
                assert(v@.take(head.len() as int) =~= head);
            }
            z += 1;
        }
        proof {
            assert(v@ =~= crate::task::stat_bytes(
                h.inode as u64,
                crate::fs::count_links(old(self).fs.names@, h.inode as int) as u32,
            ));
        }
        if st >= crate::MAX_VA || crate::MAX_VA - st < crate::STAT_SIZE {
            return -1;
        }
        if !self.procs[c].as_ref().unwrap().space.check_range(st, crate::STAT_SIZE) {
            return -1;
        }
        let mut pcb = self.procs[c].take().unwrap();
        let ok = pcb.space.write_buffer(st, &v);
        self.procs[c] = Some(pcb);
        proof {
            assert(ok);
            assert(self.procs@ =~= old(self).procs@.update(
                old(self).cur_pid(),
                Some(Pcb { space: self.cur().space, ..old(self).cur() }),
            ));
            Self::lemma_wf_after_local_update(*old(self), *self, old(self).cur_pid());
        }
        0
    }

    /// Links the path at `new_name` to the file already linked under the
    /// path at `old_name`, both read zero-terminated from the caller's
    /// memory; the result is forwarded from the filesystem collaborator:
    /// `0` on success, `-1` when a path does not translate, the old name is
    /// absent, the new name is already present, or the directory is full. A
    /// failure changes nothing.
    pub fn sys_linkat(&mut self, old_name: usize, new_name: usize) -> (r: isize)
        requires
            old(self).wf(),
            old(self).has_cur(),
        ensures
            final(self).wf(),
            !(old(self).has_path(old_name as int) && old(self).has_path(new_name as int)) ==> r
                == -1 && *final(self) == *old(self),
            old(self).has_path(old_name as int) && old(self).has_path(new_name as int) ==> ({
                let so = old(self).path_at(old_name as int);
                let sn = old(self).path_at(new_name as int);
                let ok = old(self).fs.has_name(so) && !old(self).fs.has_name(sn) && old(self).fs.names@.len() < crate::MAX_LINKS;
                &&& (r == 0 <==> ok)
                &&& (!ok ==> r == -1 && *final(self) == *old(self))
                &&& (ok ==> {
                    &&& final(self).fs.names@.len() == old(self).fs.names@.len() + 1
                    &&& final(self).fs.names@.last().name@ == sn
                    &&& final(self).fs.names@.last().inode == old(self).fs.inode_of(so)
                    &&& forall|i: int|
                        0 <= i < old(self).fs.names@.len() ==> final(self).fs.names@[i] == old(self).fs.names@[i]
                    &&& final(self).fs.inodes@ == old(self).fs.inodes@
                    &&& final(self).procs == old(self).procs
                    &&& final(self).run_queue == old(self).run_queue
                    &&& final(self).current == old(self).current
                    &&& final(self).open_files == old(self).open_files
                    &&& final(self).clock_us == old(self).clock_us
                    &&& final(self).console_out == old(self).console_out
                })
            }),
    {
        if old_name >= crate::MAX_VA || new_name >= crate::MAX_VA {
            return -1;
        }
        let c = self.current.unwrap();
        let so = match self.procs[c].as_ref().unwrap().space.read_cstr(old_name) {
            Some(n) => n,
            None => {
                return -1;
            },
        };
        let sn = match self.procs[c].as_ref().unwrap().space.read_cstr(new_name) {
            Some(n) => n,
            None => {
                return -1;
            },
        };
        proof {
            let s1 = choose|s: Seq<u8>| old(self).cur().space.is_cstr_at(old_name as int, s);
            old(self).cur().space.lemma_cstr_unique(old_name as int, s1, so@);
            let s2 = choose|s: Seq<u8>| old(self).cur().space.is_cstr_at(new_name as int, s);
            old(self).cur().space.lemma_cstr_unique(new_name as int, s2, sn@);
        }
        let ok = self.fs.link(&so, sn);
        if ok {
            proof {
                assert(self.procs@ =~= old(self).procs@.update(
                    old(self).cur_pid(),
                    Some(self.cur()),
                ));
                assert(self.cur().wf_local(self.open_files@.len() as int)) by {
                    assert(old(self).proc_ok(old(self).cur_pid()));
                }
                assert forall|f: int|
                    0 <= f < self.open_files@.len() implies (
                #[trigger] self.open_files@[f]).inode < self.fs.inodes@.len()
                    && self.open_files@[f].offset <= MAX_FILE by {
                    assert(old(self).open_files@[f].inode < old(self).fs.inodes@.len());
                }
                Self::lemma_wf_after_update(*old(self), *self, old(self).cur_pid());
            }
            0
        } else {
            -1
        }
    }

    /// Removes the link named by the zero-terminated path at `name` in the
    /// caller's memory; the file's bytes stay reachable through any other
    /// link or open handle. The result is forwarded from the filesystem
    /// collaborator: `0` on success, `-1` when the path does not translate
    /// or no such link exists; a failure changes nothing.
    pub fn sys_unlinkat(&mut self, name: usize) -> (r: isize)
        requires
            old(self).wf(),
            old(self).has_cur(),
        ensures
            final(self).wf(),
            !old(self).has_path(name as int) ==> r == -1 && *final(self) == *old(self),
            old(self).has_path(name as int) ==> ({
                let s = old(self).path_at(name as int);
                &&& (r == 0 <==> old(self).fs.has_name(s))
                &&& (!old(self).fs.has_name(s) ==> r == -1 && *final(self) == *old(self))
                &&& (old(self).fs.has_name(s) ==> {
                    &&& final(self).fs.names@ == old(self).fs.names@.remove(
                        old(self).fs.name_idx(s),
                    )
                    &&& !final(self).fs.has_name(s)
                    &&& final(self).fs.inodes@ == old(self).fs.inodes@
                    &&& final(self).procs == old(self).procs
                    &&& final(self).run_queue == old(self).run_queue
                    &&& final(self).current == old(self).current
                    &&& final(self).open_files == old(self).open_files
                    &&& final(self).clock_us == old(self).clock_us
                    &&& final(self).console_out == old(self).console_out
                })
            }),
    {
        if name >= crate::MAX_VA {
            return -1;
        }
        let c = self.current.unwrap();
        let sv = match self.procs[c].as_ref().unwrap().space.read_cstr(name) {
            Some(n) => n,
            None => {
                return -1;
            },
        };
        proof {
            let s = choose|s: Seq<u8>| old(self).cur().space.is_cstr_at(name as int, s);
            old(self).cur().space.lemma_cstr_unique(name as int, s, sv@);
        }
        let ok = self.fs.unlink(&sv);
        if ok {
            proof {
                assert(self.procs@ =~= old(self).procs@.update(
                    old(self).cur_pid(),
                    Some(self.cur()),
                ));
                assert(self.cur().wf_local(self.open_files@.len() as int)) by {
                    assert(old(self).proc_ok(old(self).cur_pid()));
                }
                assert forall|f: int|
                    0 <= f < self.open_files@.len() implies (
                #[trigger] self.open_files@[f]).inode < self.fs.inodes@.len()
                    && self.open_files@[f].offset <= MAX_FILE by {
                    assert(old(self).open_files@[f].inode < old(self).fs.inodes@.len());
                }
                Self::lemma_wf_after_update(*old(self), *self, old(self).cur_pid());
            }
            0
        } else {
            -1
        }
    }
}

} // verus!
