//! Cross-function properties of the core, stated and proved once over the
//! same specification functions that the syscall contracts use.
use vstd::prelude::*;

use crate::bytes::le32;
use crate::bytes::le32_val;
use crate::bytes::le64;
use crate::bytes::le64_val;
use crate::bytes::lemma_le32_roundtrip;
use crate::bytes::lemma_le64_roundtrip;
use crate::kernel::bumped_pass;
use crate::kernel::Kernel;
use crate::mem::AddressSpace;
use crate::task::timeval_bytes;
use crate::task::TimeVal;
use crate::PAGE_SIZE;

verus! {

/// While every page of `[lo, hi)` is mapped in the running process's space,
/// a second `sys_mmap` whose page span meets `[lo, hi)` is rejected with the
/// overlap sentinel: its acceptance condition cannot hold.
pub proof fn lemma_mmap_overlap_rejected(
    k: Kernel,
    lo: int,
    hi: int,
    start2: int,
    len2: int,
    port2: int,
)
    requires
        forall|vpn: int| lo <= vpn < hi ==> k.cur().space.page_mapped(vpn),
        ({
            let sv2 = start2 / (PAGE_SIZE as int);
            let ev2 = (start2 + len2 + PAGE_SIZE - 1) / (PAGE_SIZE as int);
            (if lo >= sv2 {
                lo
            } else {
                sv2
            }) < (if hi <= ev2 {
                hi
            } else {
                ev2
            })
        }),
    ensures
        !Kernel::mmap_accepts(k, start2, len2, port2),
{
    let sv2 = start2 / (PAGE_SIZE as int);
    let ev2 = (start2 + len2 + PAGE_SIZE - 1) / (PAGE_SIZE as int);
    let w = if lo >= sv2 {
        lo
    } else {
        sv2
    };
    assert(k.cur().space.page_mapped(w));
    assert(sv2 <= w < ev2);
}

/// A span that aligns exactly with a region the running process mapped (as
/// a successful `sys_mmap` of the same bounds leaves behind) is accepted by
/// `sys_munmap`.
pub proof fn lemma_mapped_region_unmappable(k: Kernel, start: int, len: int)
    requires
        start % (PAGE_SIZE as int) == 0,
        start + len <= crate::MAX_VA,
        exists|ri: int|
            0 <= ri < k.cur().space.regions@.len() && (
            #[trigger] k.cur().space.regions@[ri]).start_vpn == start / (PAGE_SIZE as int) && k
                .cur().space.regions@[ri].num_pages == (len + PAGE_SIZE - 1) / (
            PAGE_SIZE as int),
    ensures
        Kernel::munmap_accepts(k, start, len),
{
}

/// Every selection advances the selected process's pass by a positive
/// stride (until the pass saturates), while waiting processes' passes stand
/// still; a lower priority means a larger stride, so the scheduler gives
/// high-priority processes proportionally more selections yet lets every
/// Ready process's pass become the minimum eventually — no starvation.
pub proof fn lemma_selection_advances_pass(pass: u64, priority: u32)
    requires
        2 <= priority <= crate::MAX_PRIORITY,
    ensures
        bumped_pass(pass, priority) > pass || bumped_pass(pass, priority) == u64::MAX,
        bumped_pass(pass, priority) >= pass,
        crate::BIG_STRIDE / (priority as u64) >= 1,
{
    assert(crate::BIG_STRIDE / (priority as u64) >= 1) by {
        vstd::arithmetic::div_mod::lemma_div_is_ordered(
            priority as int,
            crate::BIG_STRIDE as int,
            priority as int,
        );
        assert(priority as int / (priority as int) == 1) by {
            vstd::arithmetic::div_mod::lemma_div_by_self(priority as int);
        }
    }
}

/// Round trip through the cross-space bridge: once a `TimeVal` image stands
/// in user memory (as a successful `sys_get_time` leaves it, even when it
/// straddles a page boundary), reassembling the two words from the stored
/// bytes gives back exactly the seconds and microseconds the kernel
/// computed.
pub proof fn lemma_timeval_roundtrip(s: AddressSpace, ts: int, tv: TimeVal)
    requires
        s.mem_bytes(ts, 16) == timeval_bytes(tv),
    ensures
        le64_val(s.mem_bytes(ts, 16).subrange(0, 8)) == tv.sec as u64,
        le64_val(s.mem_bytes(ts, 16).subrange(8, 16)) == tv.usec as u64,
{
    let m = s.mem_bytes(ts, 16);
    assert(m.subrange(0, 8) =~= le64(tv.sec as u64));
    assert(m.subrange(8, 16) =~= le64(tv.usec as u64));
    lemma_le64_roundtrip(tv.sec as u64);
    lemma_le64_roundtrip(tv.usec as u64);
}

/// Round trip of a reaped exit code: once `sys_waitpid` has written the
/// code's word into the parent's memory, reassembling that word from the
/// stored bytes gives back exactly the code the child passed to `sys_exit`.
pub proof fn lemma_exit_code_roundtrip(s: AddressSpace, ptr: int, code: i32)
    requires
        s.mem_bytes(ptr, 4) == le32(Kernel::exit_bits(code)),
    ensures
        le32_val(s.mem_bytes(ptr, 4)) == Kernel::exit_bits(code),
{
    lemma_le32_roundtrip(Kernel::exit_bits(code));
}

} // verus!
