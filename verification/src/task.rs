//! Process control blocks: identity, address space, file-descriptor table,
//! status, scheduling state and accounting, plus the fixed-layout structures
//! that syscalls write verbatim into user memory.
use vstd::prelude::*;

use crate::bytes::le32;
use crate::bytes::le64;
use crate::fs::copy_bytes;
use crate::mem::same_space;
use crate::mem::AddressSpace;
use crate::mem::MapRegion;
use crate::MAX_FDS;
use crate::MAX_PROCS;
use crate::MAX_SYSCALL_NUM;

verus! {

/// Status of a process in its life cycle.
#[derive(Clone, Copy, PartialEq, Eq, Structural, Debug)]
pub enum TaskStatus {
    /// Eligible for execution, waiting in the run queue.
    Ready,
    /// Currently executing (at most one process at a time).
    Running,
    /// Exited, retained until the parent reaps it.
    Zombie,
}

/// Word written for a status into a `TaskInfo` image.
pub open spec fn status_code(s: TaskStatus) -> u32 {
    match s {
        TaskStatus::Ready => 0,
        TaskStatus::Running => 1,
        TaskStatus::Zombie => 2,
    }
}

/// One slot of a file-descriptor table: a polymorphic file-like handle. The
/// standard streams and regular files share the capability set {readable,
/// writable, read, write}; an open regular file points into the shared
/// open-file table, so a forked child shares the handle, not a copy.
#[derive(Clone, Copy, PartialEq, Eq, Structural, Debug)]
pub enum FdEntry {
    /// The standard input stream.
    Stdin,
    /// The standard output stream.
    Stdout,
    /// An open regular file: index into the kernel's open-file table.
    File(usize),
}

/// One shared open-file handle: access mode, backing inode, and cursor.
#[derive(Clone, Copy, PartialEq, Eq, Structural, Debug)]
pub struct OpenFile {
    pub readable: bool,
    pub writable: bool,
    pub inode: usize,
    pub offset: usize,
}

/// Time split into seconds and microseconds, written verbatim (two native
/// words, little-endian) into the caller's address space by `sys_get_time`.
#[derive(Clone, Copy, PartialEq, Eq, Structural, Debug)]
pub struct TimeVal {
    pub sec: usize,
    pub usec: usize,
}

/// Byte image of a `TimeVal` as written into user memory.
pub open spec fn timeval_bytes(tv: TimeVal) -> Seq<u8> {
    le64(tv.sec as u64) + le64(tv.usec as u64)
}

/// Task information written verbatim by `sys_task_info`: status word, one
/// invocation counter per syscall identifier, and running time in
/// milliseconds.
pub struct TaskInfo {
    /// Task status in its life cycle.
    pub status: TaskStatus,
    /// The numbers of syscalls called by the task.
    pub syscall_times: Vec<u32>,
    /// Total running time of the task, in milliseconds.
    pub time: usize,
}

/// Byte image of the syscall counters: four little-endian bytes each.
pub open spec fn counters_bytes(s: Seq<u32>) -> Seq<u8> {
    Seq::new(4 * s.len(), |i: int| le32(s[i / 4])[i % 4])
}

/// Byte image of a `TaskInfo` as written into user memory.
pub open spec fn taskinfo_bytes(status: TaskStatus, times: Seq<u32>, time_ms: int) -> Seq<u8> {
    le32(status_code(status)) + counters_bytes(times) + le64(time_ms as u64)
}

/// Byte image of a `Stat` record as written into user memory by
/// `sys_fstat`: device (always zero), inode number, mode word, link count,
/// and zero padding up to the fixed size.
pub open spec fn stat_bytes(ino: u64, nlink: u32) -> Seq<u8> {
    le64(0u64) + le64(ino) + le32(crate::MODE_FILE) + le32(nlink) + Seq::new(
        (crate::STAT_SIZE - 24) as nat,
        |i: int| 0u8,
    )
}

/// One process control block. The kernel's process table owns it; the parent
/// refers to it by pid through its children list, and the pid doubles as the
/// weak back-reference from child to parent (lookup only, no ownership).
#[verifier::ext_equal]
pub struct Pcb {
    /// Identity, unique for the process's lifetime.
    pub pid: usize,
    /// Weak back-reference to the parent, if any (may name a reaped slot).
    pub parent: Option<usize>,
    /// Pids of the children, in creation order.
    pub children: Vec<usize>,
    /// Status in the life cycle.
    pub status: TaskStatus,
    /// Exit code, valid only once the status is Zombie.
    pub exit_code: i32,
    /// Scheduling priority, always at least 2.
    pub priority: u32,
    /// Accumulated stride pass: selection picks the smallest.
    pub pass: u64,
    /// Per-syscall invocation counters.
    pub syscall_times: Vec<u32>,
    /// Accumulated running time in microseconds.
    pub time_us: usize,
    /// File-descriptor table; entries are independently nullable.
    pub fd_table: Vec<Option<FdEntry>>,
    /// The exclusively owned address space.
    pub space: AddressSpace,
    /// Saved user return register, patched so a forked child observes 0.
    pub user_retval: isize,
}

impl Pcb {
    /// Well-formedness of the fields that do not involve the process table.
    pub open spec fn wf_local(self, n_open: int) -> bool {
        &&& self.pid < MAX_PROCS
        &&& 2 <= self.priority
        &&& self.syscall_times@.len() == MAX_SYSCALL_NUM
        &&& self.space.wf()
        &&& self.fd_table@.len() <= MAX_FDS
        &&& forall|f: int|
            0 <= f < self.fd_table@.len() ==> match #[trigger] self.fd_table@[f] {
                Some(FdEntry::File(of)) => of < n_open,
                _ => true,
            }
    }
}

/// A fresh zeroed bank of syscall counters.
pub fn zero_counters() -> (r: Vec<u32>)
    ensures
        r@.len() == MAX_SYSCALL_NUM,
        forall|i: int| 0 <= i < r@.len() ==> r@[i] == 0,
{
    let mut r: Vec<u32> = Vec::new();
    let mut i: usize = 0;
    while i < MAX_SYSCALL_NUM
        invariant
            i <= MAX_SYSCALL_NUM,
            r@.len() == i,
            forall|j: int| 0 <= j < i ==> r@[j] == 0,
        decreases MAX_SYSCALL_NUM - i,
    {
        r.push(0);
        i += 1;
    }
    r
}

/// The default descriptor table of a bootstrapped or spawned process:
/// standard input, standard output, standard error (also the output stream).
pub fn default_fd_table() -> (r: Vec<Option<FdEntry>>)
    ensures
        r@ == seq![
            Some(FdEntry::Stdin),
            Some(FdEntry::Stdout),
            Some(FdEntry::Stdout),
        ],
{
    let mut r: Vec<Option<FdEntry>> = Vec::new();
    r.push(Some(FdEntry::Stdin));
    r.push(Some(FdEntry::Stdout));
    r.push(Some(FdEntry::Stdout));
    proof {
        assert(r@ =~= seq![
            Some(FdEntry::Stdin),
            Some(FdEntry::Stdout),
            Some(FdEntry::Stdout),
        ]);
    }
    r
}

/// Duplicates a file-descriptor table; handles are shared references, so the
/// copied entries point at the same open files.
pub fn clone_fd_table(t: &Vec<Option<FdEntry>>) -> (r: Vec<Option<FdEntry>>)
    ensures
        r@ == t@,
{
    let n = t.len();
    let mut r: Vec<Option<FdEntry>> = Vec::new();
    let mut i: usize = 0;
    while i < n
        invariant
            n == t@.len(),
            i <= n,
            r@.len() == i,
            forall|j: int| 0 <= j < i ==> r@[j] == t@[j],
        decreases n - i,
    {
        r.push(t[i]);
        i += 1;
    }
    proof {
        assert(r@ =~= t@);
    }
    r
}

/// Deep copy of an address space: the mapped region contents are copied into
/// fresh frames, not shared, as fork requires.
pub fn clone_space(s: &AddressSpace) -> (r: AddressSpace)
    requires
        s.wf(),
    ensures
        r.wf(),
        same_space(*s, r),
        forall|vpn: int| r.page_mapped(vpn) <==> s.page_mapped(vpn),
        forall|x: int| 0 <= x < crate::MAX_VA && s.va_mapped(x) ==> r.byte_at(x) == s.byte_at(x),
{
    let n = s.regions.len();
    let mut regions: Vec<MapRegion> = Vec::new();
    let mut i: usize = 0;
    while i < n
        invariant
            s.wf(),
            n == s.regions@.len(),
            i <= n,
            regions@.len() == i,
            forall|j: int| 0 <= j < i ==> {
                &&& (#[trigger] regions@[j]).start_vpn == s.regions@[j].start_vpn
                &&& regions@[j].num_pages == s.regions@[j].num_pages
                &&& regions@[j].perm == s.regions@[j].perm
                &&& regions@[j].data@ == s.regions@[j].data@
            },
        decreases n - i,
    {
        let src = &s.regions[i];
        let reg = MapRegion {
            start_vpn: src.start_vpn,
            num_pages: src.num_pages,
            perm: src.perm,
            data: copy_bytes(&src.data),
        };
        regions.push(reg);
        i += 1;
    }
    let r = AddressSpace {
        regions,
        heap_bottom: s.heap_bottom,
        brk: s.brk,
        heap_top: s.heap_top,
    };
    proof {
        assert(crate::mem::same_layout(*s, r));
        AddressSpace::lemma_same_layout_lookup(*s, r);
        assert(r.wf());
        assert forall|x: int| 0 <= x < crate::MAX_VA && s.va_mapped(x) implies r.byte_at(x)
            == s.byte_at(x) by {
            let vpn = x / (crate::PAGE_SIZE as int);
            let j = s.region_idx(vpn);
            assert(r.region_idx(vpn) == j);
        }
    }
    r
}

/// The address space of a freshly loaded program image: the image bytes
/// mapped read-write-execute from the image base, zero-padded to whole
/// pages, with an empty data segment above it.
pub open spec fn image_space_ok(s: AddressSpace, image: Seq<u8>) -> bool {
    let pages = if image.len() == 0 {
        1int
    } else {
        (image.len() + crate::PAGE_SIZE - 1) / (crate::PAGE_SIZE as int)
    };
    &&& s.wf()
    &&& forall|vpn: int|
        s.page_mapped(vpn) <==> crate::IMAGE_BASE_VPN <= vpn < crate::IMAGE_BASE_VPN + pages
    &&& forall|vpn: int|
        crate::IMAGE_BASE_VPN <= vpn < crate::IMAGE_BASE_VPN + pages ==> s.perm_at(vpn)
            == (crate::mem::PagePerm { read: true, write: true, execute: true })
    &&& forall|k: int|
        0 <= k < image.len() ==> s.byte_at(crate::IMAGE_BASE_VPN * crate::PAGE_SIZE + k)
            == image[k]
    &&& s.heap_bottom == crate::HEAP_BOTTOM
    &&& s.brk == crate::HEAP_BOTTOM
    &&& s.heap_top == crate::HEAP_TOP
}

/// Builds the address space for a program image, as exec and spawn need it.
pub fn build_image_space(image: &Vec<u8>) -> (r: AddressSpace)
    requires
        image@.len() <= crate::MAX_FILE,
    ensures
        image_space_ok(r, image@),
{
    let len = image.len();
    let pages = if len == 0 {
        1
    } else {
        (len + crate::PAGE_SIZE - 1) / crate::PAGE_SIZE
    };
    proof {
        if len > 0 {
            vstd::arithmetic::div_mod::lemma_fundamental_div_mod(
                (len + crate::PAGE_SIZE - 1) as int,
                crate::PAGE_SIZE as int,
            );
            vstd::arithmetic::div_mod::lemma_div_is_ordered(
                (len + crate::PAGE_SIZE - 1) as int,
                (crate::MAX_FILE + crate::PAGE_SIZE - 1) as int,
                crate::PAGE_SIZE as int,
            );
        }
        assert(crate::IMAGE_BASE_VPN + pages <= crate::MAX_VPN);
        assert(pages * crate::PAGE_SIZE >= len);
    }
    let mut s = AddressSpace::new_empty(crate::HEAP_BOTTOM, crate::HEAP_TOP);
    let ghost s0 = s;
    let ok = s.map(
        crate::IMAGE_BASE_VPN,
        pages,
        crate::mem::PagePerm { read: true, write: true, execute: true },
    );
    proof {
        assert(ok);
    }
    let ghost s1 = s;
    let base = crate::IMAGE_BASE_VPN * crate::PAGE_SIZE;
    proof {
        assert forall|a: int| base <= a < base + len implies s.va_mapped(a) by {
            let vpn = a / (crate::PAGE_SIZE as int);
            vstd::arithmetic::div_mod::lemma_fundamental_div_mod(a, crate::PAGE_SIZE as int);
            assert(crate::IMAGE_BASE_VPN <= vpn < crate::IMAGE_BASE_VPN + pages);
            assert(s.page_mapped(vpn));
        }
    }
    let ok2 = s.write_buffer(base, image);
    proof {
        assert(ok2);
        AddressSpace::lemma_same_layout_lookup(s1, s);
        assert forall|k: int|
            0 <= k < image@.len() implies s.byte_at(
            crate::IMAGE_BASE_VPN * crate::PAGE_SIZE + k,
        ) == image@[k] by {
            assert(s.mem_bytes(base as int, image@.len() as int)[k] == image@[k]);
        }
        assert forall|vpn: int|
            s.page_mapped(vpn) <==> crate::IMAGE_BASE_VPN <= vpn < crate::IMAGE_BASE_VPN
                + pages by {
            assert(s1.page_mapped(vpn) <==> s.page_mapped(vpn));
        }
    }
    s
}

} // verus!
