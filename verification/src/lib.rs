//! Process-and-memory management core of a small cooperative multitasking
//! kernel: address spaces with page-granularity permissions, a cross-space
//! memory bridge, a process tree with fork/exec/spawn/exit/wait, a
//! stride-based run queue, and the syscall layer that validates user
//! arguments before mutating any shared state.
use vstd::prelude::*;

pub mod bytes;
pub mod fs;
pub mod kernel;
pub mod laws;
pub mod mem;
pub mod task;

verus! {

/// Size in bytes of one virtual page and of one physical frame.
pub const PAGE_SIZE: usize = 4096;

/// Number of virtual pages in a user address space.
pub const MAX_VPN: usize = 0x40000;

/// One past the highest user virtual address (`MAX_VPN * PAGE_SIZE`).
pub const MAX_VA: usize = 0x40000000;

/// Largest byte size of one file held by the filesystem collaborator.
pub const MAX_FILE: usize = 0x10000000;

/// Largest number of directory entries the filesystem collaborator holds.
pub const MAX_LINKS: usize = 0x100000;

/// Largest number of process identities handed out over one boot.
pub const MAX_PROCS: usize = 0x10000;

/// Largest number of slots in one file-descriptor table.
pub const MAX_FDS: usize = 1024;

/// Number of distinct syscall identifiers counted per process.
pub const MAX_SYSCALL_NUM: usize = 500;

/// Numerator of the stride added to a process's pass on each selection:
/// a selected process advances by `BIG_STRIDE / priority`.
pub const BIG_STRIDE: u64 = 65536;

/// Largest accepted scheduling priority (keeps every stride at least 1).
pub const MAX_PRIORITY: usize = 65535;

/// Mode word of a regular file in a `Stat` image.
pub const MODE_FILE: u32 = 32768;

/// Byte size of a `Stat` image.
pub const STAT_SIZE: usize = 80;

/// Microseconds per second.
pub const MICRO_PER_SEC: usize = 1000000;

/// Microseconds per millisecond.
pub const MICRO_PER_MILLISECONDS: usize = 1000;

/// First virtual page of a program image built by exec or spawn.
pub const IMAGE_BASE_VPN: usize = 16;

/// Lowest virtual address of the data segment grown by sbrk.
pub const HEAP_BOTTOM: usize = 0x20000000;

/// Highest virtual address the data segment may reach.
pub const HEAP_TOP: usize = 0x30000000;

} // verus!
