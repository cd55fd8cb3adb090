use oscore::fs::Fs;
use oscore::kernel::Kernel;
use oscore::mem::PagePerm;
use oscore::PAGE_SIZE;

fn boot() -> Kernel {
    Kernel::boot(Fs::new())
}

fn put_bytes(k: &mut Kernel, va: usize, bytes: &[u8]) {
    let c = k.current.unwrap();
    let v: Vec<u8> = bytes.to_vec();
    assert!(k.procs[c].as_mut().unwrap().space.write_buffer(va, &v));
}

fn get_bytes(k: &Kernel, va: usize, len: usize) -> Vec<u8> {
    let c = k.current.unwrap();
    k.procs[c].as_ref().unwrap().space.read_buffer(va, len).unwrap()
}

#[test]
fn mmap_then_translate_returns_permission() {
    let mut k = boot();
    let base = 0x40000;
    assert_eq!(k.sys_mmap(base, 2 * PAGE_SIZE, 3), 0);
    let sp = &k.procs[0].as_ref().unwrap().space;
    let rw = PagePerm { read: true, write: true, execute: false };
    assert_eq!(sp.translate(base / PAGE_SIZE), Some(rw));
    assert_eq!(sp.translate(base / PAGE_SIZE + 1), Some(rw));
    assert_eq!(sp.translate(base / PAGE_SIZE + 2), None);
    // overlapping second mmap fails with the overlap sentinel
    assert_eq!(k.sys_mmap(base + PAGE_SIZE, PAGE_SIZE, 1), -1);
    // fresh pages are zero-filled
    assert_eq!(get_bytes(&k, base, 8), vec![0u8; 8]);
}

#[test]
fn mmap_rejects_bad_arguments() {
    let mut k = boot();
    assert_eq!(k.sys_mmap(0x40001, PAGE_SIZE, 3), -1); // misaligned start
    assert_eq!(k.sys_mmap(0x40000, PAGE_SIZE, 0), -1); // no access bit
    assert_eq!(k.sys_mmap(0x40000, PAGE_SIZE, 8), -1); // undefined bit
    assert_eq!(k.sys_mmap(0x40000, PAGE_SIZE, 3), 0); // and a good one still works
}

#[test]
fn munmap_matching_bounds_round_trip() {
    let mut k = boot();
    let base = 0x40000;
    assert_eq!(k.sys_munmap(base, PAGE_SIZE), -1); // nothing mapped yet
    assert_eq!(k.sys_mmap(base, 2 * PAGE_SIZE, 7), 0);
    assert_eq!(k.sys_munmap(base, PAGE_SIZE), -1); // partial unmap refused
    assert_eq!(k.sys_munmap(base, 2 * PAGE_SIZE), 0); // exact bounds succeed
    let sp = &k.procs[0].as_ref().unwrap().space;
    assert_eq!(sp.translate(base / PAGE_SIZE), None);
    assert_eq!(sp.translate(base / PAGE_SIZE + 1), None);
    assert_eq!(k.sys_munmap(base, 2 * PAGE_SIZE), -1); // already released
    assert_eq!(k.sys_mmap(base, 2 * PAGE_SIZE, 1), 0); // range is free again
}

#[test]
fn get_time_straddles_page_boundary() {
    let mut k = boot();
    let base = 0x40000;
    assert_eq!(k.sys_mmap(base, 2 * PAGE_SIZE, 3), 0);
    k.advance_clock(3_456_789);
    // the 16-byte TimeVal begins in the last 4 bytes of the first page
    let ts = base + PAGE_SIZE - 4;
    assert_eq!(k.sys_get_time(ts, 0), 0);
    let bytes = get_bytes(&k, ts, 16);
    let sec = oscore::bytes::read_le64(&bytes, 0);
    let usec = oscore::bytes::read_le64(&bytes, 8);
    assert_eq!(sec, 3);
    assert_eq!(usec, 456_789);
}

#[test]
fn get_time_rejects_unmapped_target() {
    let mut k = boot();
    assert_eq!(k.sys_get_time(0x40000, 0), -1);
}

#[test]
fn sbrk_moves_the_break_within_limits() {
    let mut k = boot();
    let bottom = oscore::HEAP_BOTTOM as isize;
    assert_eq!(k.sys_sbrk(0), bottom);
    assert_eq!(k.sys_sbrk(4096), bottom);
    assert_eq!(k.sys_sbrk(0), bottom + 4096);
    assert_eq!(k.sys_sbrk(-8192), -1); // below the segment bottom
    assert_eq!(k.sys_sbrk(-4096), bottom + 4096);
    assert_eq!(k.sys_sbrk(0), bottom);
}

#[test]
fn little_endian_words_round_trip() {
    let mut v: Vec<u8> = Vec::new();
    oscore::bytes::push_le64(&mut v, 0x0123_4567_89ab_cdef);
    oscore::bytes::push_le32(&mut v, 0xdead_beef);
    assert_eq!(v.len(), 12);
    assert_eq!(v[0], 0xef);
    assert_eq!(v[7], 0x01);
    assert_eq!(oscore::bytes::read_le64(&v, 0), 0x0123_4567_89ab_cdef);
    assert_eq!(oscore::bytes::read_le32(&v, 8), 0xdead_beef);
}

#[test]
fn task_info_reports_status_counters_and_time() {
    let mut k = boot();
    let base = 0x40000;
    assert_eq!(k.sys_mmap(base, PAGE_SIZE, 3), 0);
    k.record_syscall(64);
    k.record_syscall(64);
    k.record_syscall(64);
    k.record_syscall(63);
    k.advance_clock(5_000);
    assert_eq!(k.sys_task_info(base), 0);
    let total = 12 + 4 * oscore::MAX_SYSCALL_NUM;
    let bytes = get_bytes(&k, base, total);
    assert_eq!(oscore::bytes::read_le32(&bytes, 0), 1); // Running
    assert_eq!(oscore::bytes::read_le32(&bytes, 4 + 4 * 64), 3);
    assert_eq!(oscore::bytes::read_le32(&bytes, 4 + 4 * 63), 1);
    assert_eq!(oscore::bytes::read_le64(&bytes, 4 + 4 * oscore::MAX_SYSCALL_NUM), 5);
    let ti = k.current_task_info();
    assert_eq!(ti.time, 5);
    assert_eq!(ti.syscall_times[64], 3);
}

#[test]
fn task_info_rejects_unmapped_target() {
    let mut k = boot();
    assert_eq!(k.sys_task_info(0x40000), -1);
    // a buffer that ends on unmapped ground is rejected too
    assert_eq!(k.sys_mmap(0x40000, PAGE_SIZE, 3), 0);
    assert_eq!(k.sys_task_info(0x40000 + PAGE_SIZE - 16), -1);
}

#[test]
fn translate_buffer_splits_at_page_boundaries() {
    let mut k = boot();
    let base = 0x40000;
    assert_eq!(k.sys_mmap(base, 2 * PAGE_SIZE, 3), 0);
    let sp = &k.procs[0].as_ref().unwrap().space;
    // a buffer straddling the boundary comes back as two page-bounded slices
    let sl = sp.translate_buffer(base + PAGE_SIZE - 4, 16).unwrap();
    assert_eq!(sl.len(), 2);
    assert_eq!((sl[0].vpn, sl[0].offset, sl[0].len), (base / PAGE_SIZE, PAGE_SIZE - 4, 4));
    assert_eq!((sl[1].vpn, sl[1].offset, sl[1].len), (base / PAGE_SIZE + 1, 0, 12));
    // a buffer inside one page is a single slice
    let one = sp.translate_buffer(base + 8, 5).unwrap();
    assert_eq!(one.len(), 1);
    assert_eq!((one[0].offset, one[0].len), (8, 5));
    // an unmapped tail fails the whole translation
    assert!(sp.translate_buffer(base + PAGE_SIZE, PAGE_SIZE + 1).is_none());
}
