use oscore::fs::Fs;
use oscore::kernel::Kernel;
use oscore::PAGE_SIZE;

const CREATE: u32 = 512;
const RDWR: u32 = 2;

fn boot_with_page() -> (Kernel, usize) {
    let mut k = Kernel::boot(Fs::new());
    let base = 0x40000;
    assert_eq!(k.sys_mmap(base, 2 * PAGE_SIZE, 3), 0);
    (k, base)
}

fn put_bytes(k: &mut Kernel, va: usize, bytes: &[u8]) {
    let c = k.current.unwrap();
    let v: Vec<u8> = bytes.to_vec();
    assert!(k.procs[c].as_mut().unwrap().space.write_buffer(va, &v));
}

fn put_path(k: &mut Kernel, va: usize, path: &str) {
    let mut v = path.as_bytes().to_vec();
    v.push(0);
    put_bytes(k, va, &v);
}

fn get_bytes(k: &Kernel, va: usize, len: usize) -> Vec<u8> {
    let c = k.current.unwrap();
    k.procs[c].as_ref().unwrap().space.read_buffer(va, len).unwrap()
}

#[test]
fn open_missing_path_allocates_no_descriptor() {
    let (mut k, base) = boot_with_page();
    put_path(&mut k, base, "absent");
    let before = k.procs[0].as_ref().unwrap().fd_table.len();
    assert_eq!(k.sys_open(base, 0), -1);
    assert_eq!(k.procs[0].as_ref().unwrap().fd_table.len(), before);
    assert_eq!(k.open_files.len(), 0);
    assert_eq!(k.fs.names.len(), 0);
}

#[test]
fn open_rejects_undefined_flag_bits() {
    let (mut k, base) = boot_with_page();
    put_path(&mut k, base, "x");
    assert_eq!(k.sys_open(base, 4), -1);
    assert_eq!(k.sys_open(base, 0x10000), -1);
}

#[test]
fn read_write_on_bad_descriptor_leave_the_buffer_alone() {
    let (mut k, base) = boot_with_page();
    put_bytes(&mut k, base, &[10, 20, 30, 40]);
    assert_eq!(k.sys_read(9, base, 4), -1); // never opened
    assert_eq!(k.sys_write(9, base, 4), -1);
    assert_eq!(k.sys_read(1, base, 4), -1); // stdout is not readable
    assert_eq!(k.sys_write(0, base, 4), -1); // stdin is not writable
    assert_eq!(get_bytes(&k, base, 4), vec![10, 20, 30, 40]);
    // a closed descriptor behaves like a bad one
    put_path(&mut k, base + 16, "f");
    let fd = k.sys_open(base + 16, CREATE | RDWR);
    assert_eq!(fd, 3);
    assert_eq!(k.sys_close(fd as usize), 0);
    assert_eq!(k.sys_read(fd as usize, base, 4), -1);
    assert_eq!(k.sys_write(fd as usize, base, 4), -1);
    assert_eq!(get_bytes(&k, base, 4), vec![10, 20, 30, 40]);
}

#[test]
fn close_rejects_bad_and_double_close() {
    let (mut k, base) = boot_with_page();
    assert_eq!(k.sys_close(9), -1);
    put_path(&mut k, base, "f");
    let fd = k.sys_open(base, CREATE | RDWR) as usize;
    assert_eq!(k.sys_close(fd), 0);
    assert_eq!(k.sys_close(fd), -1);
}

#[test]
fn file_write_then_read_round_trip() {
    let (mut k, base) = boot_with_page();
    put_path(&mut k, base, "data");
    let fd = k.sys_open(base, CREATE | RDWR) as usize;
    put_bytes(&mut k, base + 64, b"hello");
    assert_eq!(k.sys_write(fd, base + 64, 5), 5);
    assert_eq!(k.sys_close(fd as usize), 0);
    // reopen read-only and read it back into a scratch buffer
    let fd2 = k.sys_open(base, 0) as usize;
    assert_eq!(fd2, 3); // the slot was reusable
    assert_eq!(k.sys_read(fd2, base + 128, 16), 5); // short read at end of file
    assert_eq!(get_bytes(&k, base + 128, 5), b"hello".to_vec());
    assert_eq!(k.sys_read(fd2, base + 128, 16), 0); // cursor at end
}

#[test]
fn write_to_stdout_reaches_the_console() {
    let (mut k, base) = boot_with_page();
    put_bytes(&mut k, base, b"ok!");
    assert_eq!(k.sys_write(1, base, 3), 3);
    assert_eq!(k.sys_write(2, base, 3), 3); // stderr shares the stream
    assert_eq!(k.console_out, b"ok!ok!".to_vec());
}

#[test]
fn write_with_unmapped_buffer_fails() {
    let (mut k, base) = boot_with_page();
    // buffer runs off the end of the mapping
    assert_eq!(k.sys_write(1, base + 2 * PAGE_SIZE - 2, 4), -1);
    assert_eq!(k.console_out.len(), 0);
}

#[test]
fn linkat_gives_a_second_name_to_the_same_file() {
    let (mut k, base) = boot_with_page();
    put_path(&mut k, base, "a");
    put_path(&mut k, base + 32, "b");
    assert_eq!(k.sys_linkat(base, base + 32), -1); // old name absent
    let fd = k.sys_open(base, CREATE | RDWR) as usize;
    put_bytes(&mut k, base + 64, b"shared");
    assert_eq!(k.sys_write(fd, base + 64, 6), 6);
    assert_eq!(k.sys_close(fd), 0);
    assert_eq!(k.sys_linkat(base, base + 32), 0);
    assert_eq!(k.sys_linkat(base, base + 32), -1); // new name taken now
    // the second name reads the same bytes
    let fd2 = k.sys_open(base + 32, 0) as usize;
    assert_eq!(k.sys_read(fd2, base + 128, 6), 6);
    assert_eq!(get_bytes(&k, base + 128, 6), b"shared".to_vec());
}

#[test]
fn unlinkat_removes_one_link_only() {
    let (mut k, base) = boot_with_page();
    put_path(&mut k, base, "a");
    put_path(&mut k, base + 32, "b");
    assert_eq!(k.sys_unlinkat(base), -1); // nothing to remove yet
    let fd = k.sys_open(base, CREATE) as usize;
    assert_eq!(k.sys_close(fd), 0);
    assert_eq!(k.sys_linkat(base, base + 32), 0);
    assert_eq!(k.sys_unlinkat(base), 0);
    assert_eq!(k.sys_unlinkat(base), -1); // already gone
    assert_eq!(k.sys_open(base, 0), -1); // old name no longer opens
    assert!(k.sys_open(base + 32, 0) >= 0); // the other link survives
}

#[test]
fn fstat_writes_inode_mode_and_link_count() {
    let (mut k, base) = boot_with_page();
    put_path(&mut k, base, "a");
    put_path(&mut k, base + 32, "b");
    let fd = k.sys_open(base, CREATE | RDWR) as usize;
    assert_eq!(k.sys_linkat(base, base + 32), 0);
    let st = base + PAGE_SIZE - 40; // straddles the page boundary
    assert_eq!(k.sys_fstat(fd, st), 0);
    let bytes = get_bytes(&k, st, oscore::STAT_SIZE);
    assert_eq!(oscore::bytes::read_le64(&bytes, 0), 0); // device
    assert_eq!(oscore::bytes::read_le64(&bytes, 8), 0); // first inode
    assert_eq!(oscore::bytes::read_le32(&bytes, 16), oscore::MODE_FILE);
    assert_eq!(oscore::bytes::read_le32(&bytes, 20), 2); // two links
    assert_eq!(&bytes[24..], &[0u8; 56]);
    // the standard streams do not support fstat
    assert_eq!(k.sys_fstat(1, st), -1);
    assert_eq!(k.sys_fstat(9, st), -1);
}

#[test]
fn create_truncates_an_existing_file() {
    let (mut k, base) = boot_with_page();
    put_path(&mut k, base, "f");
    let fd = k.sys_open(base, CREATE | RDWR) as usize;
    put_bytes(&mut k, base + 64, b"old");
    assert_eq!(k.sys_write(fd, base + 64, 3), 3);
    assert_eq!(k.sys_close(fd), 0);
    let fd2 = k.sys_open(base, CREATE | RDWR) as usize;
    assert_eq!(k.sys_read(fd2, base + 128, 8), 0); // contents were cleared
    assert_eq!(k.fs.inodes.len(), 1); // but no second inode appeared
}
