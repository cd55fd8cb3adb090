use oscore::fs::Fs;
use oscore::kernel::Kernel;
use oscore::task::TaskStatus;
use oscore::PAGE_SIZE;

fn boot() -> Kernel {
    Kernel::boot(Fs::new())
}

fn get_bytes(k: &Kernel, va: usize, len: usize) -> Vec<u8> {
    let c = k.current.unwrap();
    k.procs[c].as_ref().unwrap().space.read_buffer(va, len).unwrap()
}

fn put_path(k: &mut Kernel, va: usize, path: &str) {
    let c = k.current.unwrap();
    let mut v: Vec<u8> = path.as_bytes().to_vec();
    v.push(0);
    assert!(k.procs[c].as_mut().unwrap().space.write_buffer(va, &v));
}

#[test]
fn getpid_and_yield_with_one_process() {
    let mut k = boot();
    assert_eq!(k.sys_getpid(), 0);
    assert_eq!(k.sys_yield(), 0);
    assert_eq!(k.sys_getpid(), 0); // sole process is reselected
}

#[test]
fn fork_then_waitpid_reaps_exactly_once() {
    let mut k = boot();
    let base = 0x40000;
    assert_eq!(k.sys_mmap(base, PAGE_SIZE, 3), 0);
    let child = k.sys_fork();
    assert_eq!(child, 1);
    assert_eq!(k.sys_getpid(), 0); // parent keeps running
    // the child has not exited: try-again sentinel, nothing reaped
    assert_eq!(k.sys_waitpid(-1, base), -2);
    assert_eq!(k.sys_waitpid(1, base), -2);
    // no such child at all
    assert_eq!(k.sys_waitpid(7, base), -1);
    // switch to the child and let it exit
    assert_eq!(k.sys_yield(), 0);
    assert_eq!(k.sys_getpid(), 1);
    k.sys_exit(7);
    assert_eq!(k.sys_getpid(), 0);
    assert_eq!(k.procs[1].as_ref().unwrap().status, TaskStatus::Zombie);
    // reap: pid returned, exit code written exactly once
    assert_eq!(k.sys_waitpid(1, base), 1);
    let bytes = get_bytes(&k, base, 4);
    assert_eq!(oscore::bytes::read_le32(&bytes, 0), 7);
    assert!(k.procs[1].is_none());
    // a second wait for the same pid finds no child
    assert_eq!(k.sys_waitpid(1, base), -1);
    assert_eq!(k.sys_waitpid(-1, base), -1);
}

#[test]
fn fork_child_sees_zero_in_saved_return_register() {
    let mut k = boot();
    let child = k.sys_fork();
    assert_eq!(child, 1);
    assert_eq!(k.procs[1].as_ref().unwrap().user_retval, 0);
    assert_eq!(k.procs[1].as_ref().unwrap().parent, Some(0));
    assert_eq!(k.procs[0].as_ref().unwrap().children, vec![1]);
}

#[test]
fn fork_copies_memory_instead_of_sharing_it() {
    let mut k = boot();
    let base = 0x40000;
    assert_eq!(k.sys_mmap(base, PAGE_SIZE, 3), 0);
    {
        let c = k.current.unwrap();
        let v: Vec<u8> = vec![9, 8, 7];
        assert!(k.procs[c].as_mut().unwrap().space.write_buffer(base, &v));
    }
    assert_eq!(k.sys_fork(), 1);
    // the child sees a copy of the parent's bytes
    assert_eq!(
        k.procs[1].as_ref().unwrap().space.read_buffer(base, 3).unwrap(),
        vec![9, 8, 7]
    );
    // a later write in the parent does not show through
    {
        let v: Vec<u8> = vec![1];
        assert!(k.procs[0].as_mut().unwrap().space.write_buffer(base, &v));
    }
    assert_eq!(
        k.procs[1].as_ref().unwrap().space.read_buffer(base, 1).unwrap(),
        vec![9]
    );
}

#[test]
fn set_priority_rejects_reserved_values() {
    let mut k = boot();
    assert_eq!(k.sys_set_priority(0), -1);
    assert_eq!(k.sys_set_priority(1), -1);
    assert_eq!(k.sys_set_priority(2), 2);
    assert_eq!(k.procs[0].as_ref().unwrap().priority, 2);
    assert_eq!(k.sys_set_priority(10), 10);
    assert_eq!(k.procs[0].as_ref().unwrap().priority, 10);
}

#[test]
fn scheduler_shares_follow_priority_without_starvation() {
    let mut k = boot();
    assert_eq!(k.sys_fork(), 1);
    assert_eq!(k.sys_fork(), 2);
    // the bootstrap process bows out; its children stay attached to it
    k.sys_exit(0);
    // first child runs first (FIFO among equal passes) and takes priority 2
    assert_eq!(k.sys_getpid(), 1);
    assert_eq!(k.sys_set_priority(2), 2);
    assert_eq!(k.sys_yield(), 0);
    assert_eq!(k.sys_getpid(), 2);
    assert_eq!(k.sys_set_priority(10), 10);
    let mut slots = [0usize; 3];
    for _ in 0..36 {
        let p = k.sys_getpid() as usize;
        slots[p] += 1;
        assert_eq!(k.sys_yield(), 0);
    }
    // priority 10 gets the proportionally larger share,
    // priority 2 is never starved entirely
    assert!(slots[1] >= 1, "low-priority process starved: {:?}", slots);
    assert!(slots[2] > 2 * slots[1], "shares not proportional: {:?}", slots);
}

#[test]
fn exit_with_empty_queue_idles_the_kernel() {
    let mut k = boot();
    k.sys_exit(5);
    assert!(k.current.is_none());
    assert_eq!(k.procs[0].as_ref().unwrap().status, TaskStatus::Zombie);
    assert_eq!(k.procs[0].as_ref().unwrap().exit_code, 5);
}

#[test]
fn exec_replaces_the_address_space_in_place() {
    let mut k = boot();
    // the program file comes from the filesystem collaborator
    let ino = k.fs.create(b"prog".to_vec());
    let image: Vec<u8> = vec![1, 2, 3, 4];
    k.fs.write_at(ino, 0, &image);
    let scratch = 0x40000;
    assert_eq!(k.sys_mmap(scratch, PAGE_SIZE, 3), 0);
    put_path(&mut k, scratch, "prog");
    assert_eq!(k.sys_exec(scratch), 0);
    // identity is preserved, the old mapping is gone, the image is loaded
    assert_eq!(k.sys_getpid(), 0);
    let sp = &k.procs[0].as_ref().unwrap().space;
    assert_eq!(sp.translate(scratch / PAGE_SIZE), None);
    let base = oscore::IMAGE_BASE_VPN * PAGE_SIZE;
    assert_eq!(sp.read_buffer(base, 5).unwrap(), vec![1, 2, 3, 4, 0]);
}

#[test]
fn exec_fails_on_missing_path_without_terminating() {
    let mut k = boot();
    let scratch = 0x40000;
    assert_eq!(k.sys_mmap(scratch, PAGE_SIZE, 3), 0);
    put_path(&mut k, scratch, "absent");
    assert_eq!(k.sys_exec(scratch), -1);
    assert_eq!(k.sys_exec(0x50000), -1); // unmapped path pointer
    assert_eq!(k.sys_getpid(), 0); // still running, space untouched
    let sp = &k.procs[0].as_ref().unwrap().space;
    assert!(sp.translate(scratch / PAGE_SIZE).is_some());
}

#[test]
fn spawn_builds_child_from_image_and_wait_reaps_it() {
    let mut k = boot();
    let ino = k.fs.create(b"prog".to_vec());
    let image: Vec<u8> = vec![5, 6];
    k.fs.write_at(ino, 0, &image);
    let scratch = 0x40000;
    assert_eq!(k.sys_mmap(scratch, PAGE_SIZE, 3), 0);
    put_path(&mut k, scratch, "prog");
    let child = k.sys_spawn(scratch);
    assert_eq!(child, 1);
    assert_eq!(k.sys_waitpid(1, scratch), -2); // spawned, not yet exited
    assert_eq!(k.sys_yield(), 0);
    assert_eq!(k.sys_getpid(), 1);
    // the child's memory is the image, not a copy of the parent's
    let base = oscore::IMAGE_BASE_VPN * PAGE_SIZE;
    assert_eq!(get_bytes(&k, base, 2), vec![5, 6]);
    assert!(k.procs[1].as_ref().unwrap().space.translate(scratch / PAGE_SIZE).is_none());
    // it writes to its standard output and exits
    assert_eq!(k.sys_write(1, base, 2), 2);
    assert_eq!(k.console_out, vec![5, 6]);
    k.sys_exit(3);
    assert_eq!(k.sys_getpid(), 0);
    assert_eq!(k.sys_waitpid(1, scratch), 1);
    let bytes = get_bytes(&k, scratch, 4);
    assert_eq!(oscore::bytes::read_le32(&bytes, 0), 3);
}

#[test]
fn spawn_fails_on_missing_path() {
    let mut k = boot();
    let scratch = 0x40000;
    assert_eq!(k.sys_mmap(scratch, PAGE_SIZE, 3), 0);
    put_path(&mut k, scratch, "absent");
    assert_eq!(k.sys_spawn(scratch), -1);
    assert_eq!(k.procs.len(), 1); // no process was created
}
