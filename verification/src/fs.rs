//! Model of the filesystem collaborator: a flat set of inodes holding byte
//! contents, and a directory of name-to-inode links. The core consumes it
//! through a narrow interface (lookup, create, link, unlink, read, write);
//! on-disk layout is out of scope.
use vstd::prelude::*;

use crate::MAX_FILE;
use crate::MAX_LINKS;

verus! {

/// One directory entry: a name linked to an inode.
#[verifier::ext_equal]
pub struct DirEntry {
    pub name: Vec<u8>,
    pub inode: usize,
}

/// The filesystem: inode contents plus the directory of links.
#[verifier::ext_equal]
pub struct Fs {
    pub inodes: Vec<Vec<u8>>,
    pub names: Vec<DirEntry>,
}

/// Bytes of `data` after writing `b` at offset `off`: the file is extended
/// with zero fill when the write begins past its end, and keeps its tail
/// when the write ends before it.
pub open spec fn file_write(data: Seq<u8>, off: int, b: Seq<u8>) -> Seq<u8> {
    let pre = if off <= data.len() {
        data.take(off)
    } else {
        data + Seq::new((off - data.len()) as nat, |i: int| 0u8)
    };
    let post = if off + b.len() < data.len() {
        data.skip(off + b.len())
    } else {
        Seq::<u8>::empty()
    };
    pre + b + post
}

/// Number of directory entries among `s` linking to inode `ino`.
pub open spec fn count_links(s: Seq<DirEntry>, ino: int) -> nat
    decreases s.len(),
{
    if s.len() == 0 {
        0
    } else {
        count_links(s.drop_last(), ino) + if s.last().inode == ino {
            1nat
        } else {
            0nat
        }
    }
}

impl Fs {
    pub open spec fn wf(self) -> bool {
        &&& self.inodes@.len() <= MAX_LINKS
        &&& self.names@.len() <= MAX_LINKS
        &&& forall|i: int|
            0 <= i < self.inodes@.len() ==> (#[trigger] self.inodes@[i])@.len() <= MAX_FILE
        &&& forall|i: int|
            0 <= i < self.names@.len() ==> (#[trigger] self.names@[i]).inode
                < self.inodes@.len()
        &&& forall|i: int, j: int|
            0 <= i < j < self.names@.len() ==> (#[trigger] self.names@[i]).name@ != (
            #[trigger] self.names@[j]).name@
    }

    /// Whether some directory entry carries `name`.
    pub open spec fn has_name(self, name: Seq<u8>) -> bool {
        exists|i: int| 0 <= i < self.names@.len() && (#[trigger] self.names@[i]).name@ == name
    }

    /// Index of the directory entry carrying `name` (meaningful only when
    /// `has_name`); by well-formedness there is at most one.
    pub open spec fn name_idx(self, name: Seq<u8>) -> int {
        choose|i: int| 0 <= i < self.names@.len() && (#[trigger] self.names@[i]).name@ == name
    }

    /// Inode linked under `name` (meaningful only when `has_name`).
    pub open spec fn inode_of(self, name: Seq<u8>) -> int {
        self.names@[self.name_idx(name)].inode as int
    }

    pub proof fn lemma_name_idx_unique(self, name: Seq<u8>, i: int)
        requires
            self.wf(),
            0 <= i < self.names@.len(),
            self.names@[i].name@ == name,
        ensures
            self.has_name(name),
            self.name_idx(name) == i,
    {
        assert(self.has_name(name));
        let j = self.name_idx(name);
        if i != j {
            assert(self.names@[i].name@ != self.names@[j].name@ || self.names@[j].name@ != self
                .names@[i].name@);
            assert(false);
        }
    }

    /// An empty filesystem.
    pub fn new() -> (r: Fs)
        ensures
            r.wf(),
            r.inodes@.len() == 0,
            r.names@.len() == 0,
            forall|n: Seq<u8>| !r.has_name(n),
    {
        Fs { inodes: Vec::new(), names: Vec::new() }
    }

    /// Looks `name` up in the directory.
    pub fn lookup(&self, name: &Vec<u8>) -> (r: Option<usize>)
        requires
            self.wf(),
        ensures
            match r {
                Some(ino) => self.has_name(name@) && ino == self.inode_of(name@) && ino
                    < self.inodes@.len(),
                None => !self.has_name(name@),
            },
    {
        let n = self.names.len();
        let mut i: usize = 0;
        while i < n
            invariant
                self.wf(),
                n == self.names@.len(),
                i <= n,
                forall|j: int| 0 <= j < i ==> (#[trigger] self.names@[j]).name@ != name@,
            decreases n - i,
        {
            if bytes_eq(&self.names[i].name, name) {
                proof {
                    self.lemma_name_idx_unique(name@, i as int);
                }
                return Some(self.names[i].inode);
            }
            i += 1;
        }
        None
    }

    /// Number of links to inode `ino`.
    pub fn nlink(&self, ino: usize) -> (r: u32)
        requires
            self.wf(),
        ensures
            r == count_links(self.names@, ino as int),
    {
        let n = self.names.len();
        let mut count: u32 = 0;
        let mut i: usize = 0;
        while i < n
            invariant
                self.wf(),
                n == self.names@.len(),
                i <= n,
                count <= i,
                count == count_links(self.names@.take(i as int), ino as int),
            decreases n - i,
        {
            proof {
                assert(self.names@.take(i + 1).drop_last() =~= self.names@.take(i as int));
                assert(self.names@.take(i + 1).last() == self.names@[i as int]);
            }
            if self.names[i].inode == ino {
                count += 1;
            }
            i += 1;
        }
        proof {
            assert(self.names@.take(n as int) =~= self.names@);
        }
        count
    }

    /// Creates a fresh empty inode linked under `name`.
    pub fn create(&mut self, name: Vec<u8>) -> (ino: usize)
        requires
            old(self).wf(),
            !old(self).has_name(name@),
            old(self).names@.len() < MAX_LINKS,
            old(self).inodes@.len() < MAX_LINKS,
        ensures
            final(self).wf(),
            ino == old(self).inodes@.len(),
            final(self).inodes@.len() == old(self).inodes@.len() + 1,
            forall|i: int|
                0 <= i < old(self).inodes@.len() ==> final(self).inodes@[i] == old(self).inodes@[i],
            final(self).inodes@[ino as int]@.len() == 0,
            final(self).names@ == old(self).names@.push(
                DirEntry { name: name, inode: ino },
            ),
            final(self).has_name(name@) && final(self).inode_of(name@) == ino,
    {
        let ino = self.inodes.len();
        self.inodes.push(Vec::new());
        let entry = DirEntry { name, inode: ino };
        let ghost entry_view = entry.name@;
        self.names.push(entry);
        proof {
            assert forall|i: int, j: int|
                0 <= i < j < self.names@.len() implies (#[trigger] self.names@[i]).name@ != (
            #[trigger] self.names@[j]).name@ by {
                if j == self.names@.len() - 1 {
                    assert(!old(self).has_name(entry_view));
                    assert(old(self).names@[i].name@ != entry_view);
                }
            }
            self.lemma_name_idx_unique(entry_view, self.names@.len() - 1);
        }
        ino
    }

    /// Links `newname` to the inode already linked under `oldname`; fails,
    /// changing nothing, when `oldname` is absent, `newname` is already
    /// present, or the directory is full.
    pub fn link(&mut self, oldname: &Vec<u8>, newname: Vec<u8>) -> (ok: bool)
        requires
            old(self).wf(),
        ensures
            final(self).wf(),
            ok <==> (old(self).has_name(oldname@) && !old(self).has_name(newname@) && old(
                self,
            ).names@.len() < MAX_LINKS),
            ok ==> final(self).names@ == old(self).names@.push(
                DirEntry { name: newname, inode: old(self).inode_of(oldname@) as usize },
            ) && final(self).inodes@ == old(self).inodes@,
            !ok ==> *final(self) == *old(self),
    {
        let ino = match self.lookup(oldname) {
            Some(ino) => ino,
            None => {
                return false;
            },
        };
        if self.lookup(&newname).is_some() {
            return false;
        }
        if self.names.len() >= MAX_LINKS {
            return false;
        }
        let entry = DirEntry { name: newname, inode: ino };
        let ghost entry_view = entry.name@;
        self.names.push(entry);
        proof {
            assert forall|i: int, j: int|
                0 <= i < j < self.names@.len() implies (#[trigger] self.names@[i]).name@ != (
            #[trigger] self.names@[j]).name@ by {
                if j == self.names@.len() - 1 {
                    assert(old(self).names@[i].name@ != entry_view);
                }
            }
        }
        true
    }

    /// Removes the link `name`; the inode and its bytes stay. Fails, changing
    /// nothing, when `name` is absent.
    pub fn unlink(&mut self, name: &Vec<u8>) -> (ok: bool)
        requires
            old(self).wf(),
        ensures
            final(self).wf(),
            ok <==> old(self).has_name(name@),
            ok ==> final(self).names@ == old(self).names@.remove(old(self).name_idx(name@))
                && final(self).inodes@ == old(self).inodes@ && !final(self).has_name(name@),
            !ok ==> *final(self) == *old(self),
    {
        let n = self.names.len();
        let mut i: usize = 0;
        while i < n
            invariant
                *self == *old(self),
                self.wf(),
                n == self.names@.len(),
                i <= n,
                forall|j: int| 0 <= j < i ==> (#[trigger] self.names@[j]).name@ != name@,
            decreases n - i,
        {
            if bytes_eq(&self.names[i].name, name) {
                proof {
                    self.lemma_name_idx_unique(name@, i as int);
                }
                let ghost pre = *self;
                self.names.remove(i);
                proof {
                    let k = i as int;
                    assert forall|a: int, b: int|
                        0 <= a < b < self.names@.len() implies (#[trigger] self.names@[a]).name@
                        != (#[trigger] self.names@[b]).name@ by {
                        let pa = if a < k {
                            a
                        } else {
                            a + 1
                        };
                        let pb = if b < k {
                            b
                        } else {
                            b + 1
                        };
                        assert(self.names@[a] == pre.names@[pa]);
                        assert(self.names@[b] == pre.names@[pb]);
                    }
                    assert forall|j: int| 0 <= j < self.names@.len() implies (
                    #[trigger] self.names@[j]).name@ != name@ by {
                        let pj = if j < k {
                            j
                        } else {
                            j + 1
                        };
                        assert(self.names@[j] == pre.names@[pj]);
                        if pj != k {
                            pre.lemma_name_idx_unique(name@, k);
                            if pre.names@[pj].name@ == name@ {
                                pre.lemma_name_idx_unique(name@, pj);
                            }
                        }
                    }
                }
                return true;
            }
            i += 1;
        }
        false
    }

    /// Clears the bytes of inode `ino`.
    pub fn truncate(&mut self, ino: usize)
        requires
            old(self).wf(),
            ino < old(self).inodes@.len(),
        ensures
            final(self).wf(),
            final(self).inodes@.len() == old(self).inodes@.len(),
            forall|i: int|
                0 <= i < old(self).inodes@.len() && i != ino ==> final(self).inodes@[i] == old(self).inodes@[i],
            final(self).inodes@[ino as int]@.len() == 0,
            final(self).names@ == old(self).names@,
    {
        self.inodes[ino] = Vec::new();
    }

    /// Copies `inodes[ino][off .. off + n]` into a fresh buffer.
    pub fn read_at(&self, ino: usize, off: usize, n: usize) -> (r: Vec<u8>)
        requires
            self.wf(),
            ino < self.inodes@.len(),
            off + n <= self.inodes@[ino as int]@.len(),
        ensures
            r@ == self.inodes@[ino as int]@.subrange(off as int, off as int + n as int),
    {
        let mut r: Vec<u8> = Vec::new();
        let mut i: usize = 0;
        while i < n
            invariant
                self.wf(),
                ino < self.inodes@.len(),
                off + n <= self.inodes@[ino as int]@.len(),
                i <= n,
                r@.len() == i,
                forall|j: int| 0 <= j < i ==> r@[j] == self.inodes@[ino as int]@[off + j],
            decreases n - i,
        {
            let b = self.inodes[ino][off + i];
            r.push(b);
            i += 1;
        }
        proof {
            assert(r@ =~= self.inodes@[ino as int]@.subrange(off as int, off as int + n as int));
        }
        r
    }

    /// Writes `b` into inode `ino` at offset `off`, zero-filling any gap and
    /// keeping the tail past the write.
    pub fn write_at(&mut self, ino: usize, off: usize, b: &Vec<u8>)
        requires
            old(self).wf(),
            ino < old(self).inodes@.len(),
            off + b@.len() <= MAX_FILE,
        ensures
            final(self).wf(),
            final(self).inodes@ == old(self).inodes@.update(
                ino as int,
                final(self).inodes@[ino as int],
            ),
            final(self).inodes@[ino as int]@ == file_write(
                old(self).inodes@[ino as int]@,
                off as int,
                b@,
            ),
            final(self).names@ == old(self).names@,
    {
        let cur_len = self.inodes[ino].len();
        let mut data: Vec<u8> = Vec::new();
        let head = if off < cur_len {
            off
        } else {
            cur_len
        };
        let mut i: usize = 0;
        while i < head
            invariant
                self.wf(),
                ino < self.inodes@.len(),
                cur_len == self.inodes@[ino as int]@.len(),
                head <= cur_len,
                i <= head,
                data@.len() == i,
                forall|j: int| 0 <= j < i ==> data@[j] == self.inodes@[ino as int]@[j],
            decreases head - i,
        {
            let byte = self.inodes[ino][i];
            data.push(byte);
            i += 1;
        }
        while data.len() < off
            invariant
                data@.len() <= off,
                head <= data@.len(),
                forall|j: int| 0 <= j < head ==> data@[j] == self.inodes@[ino as int]@[j],
                forall|j: int| head <= j < data@.len() ==> data@[j] == 0,
            decreases off - data@.len(),
        {
            data.push(0);
        }
        let mut k: usize = 0;
        let blen = b.len();
        let ghost mid = data@;
        while k < blen
            invariant
                blen == b@.len(),
                k <= blen,
                data@.len() == mid.len() + k,
                data@.take(mid.len() as int) == mid,
                forall|j: int|
                    mid.len() <= j < data@.len() ==> #[trigger] data@[j] == b@[j - mid.len()],
            decreases blen - k,
        {
            data.push(b[k]);
            proof {
                assert(data@.take(mid.len() as int) =~= mid);
            }
            k += 1;
        }
        let tail_start = off + blen;
        let ghost mid2 = data@;
        let mut t: usize = tail_start;
        while t < cur_len
            invariant
                self.wf(),
                ino < self.inodes@.len(),
                cur_len == self.inodes@[ino as int]@.len(),
                tail_start <= t <= cur_len || t == tail_start,
                tail_start <= t,
                data@.len() == mid2.len() + (t - tail_start),
                data@.take(mid2.len() as int) == mid2,
                forall|j: int|
                    mid2.len() <= j < data@.len() ==> #[trigger] data@[j]
                        == self.inodes@[ino as int]@[tail_start + j - mid2.len()],
            decreases cur_len - t,
        {
            let byte = self.inodes[ino][t];
            data.push(byte);
            proof {
                assert(data@.take(mid2.len() as int) =~= mid2);
            }
            t += 1;
        }
        proof {
            let cur = self.inodes@[ino as int]@;
            let target = file_write(cur, off as int, b@);
            assert(mid.len() == off);
            assert(mid2.len() == off + blen);
            assert(data@.len() == target.len());
            assert forall|idx: int| 0 <= idx < data@.len() implies data@[idx] == target[idx] by {
                if idx < off {
                    assert(data@[idx] == mid2[idx]);
                    assert(mid2[idx] == mid[idx]);
                } else if idx < off + blen {
                    assert(data@[idx] == mid2[idx]);
                    assert(mid2[idx] == b@[idx - off]);
                } else {
                    assert(data@[idx] == cur[tail_start + idx - mid2.len()]);
                }
            }
            assert(data@ =~= file_write(cur, off as int, b@));
        }
        self.inodes[ino] = data;
    }
}

/// Whether two byte vectors hold the same bytes.
pub fn bytes_eq(a: &Vec<u8>, b: &Vec<u8>) -> (r: bool)
    ensures
        r <==> a@ == b@,
{
    if a.len() != b.len() {
        return false;
    }
    let n = a.len();
    let mut i: usize = 0;
    while i < n
        invariant
            n == a@.len() == b@.len(),
            i <= n,
            forall|j: int| 0 <= j < i ==> a@[j] == b@[j],
        decreases n - i,
    {
        if a[i] != b[i] {
            return false;
        }
        i += 1;
    }
    proof {
        assert(a@ =~= b@);
    }
    true
}

/// Copies a byte vector.
pub fn copy_bytes(a: &Vec<u8>) -> (r: Vec<u8>)
    ensures
        r@ == a@,
{
    let n = a.len();
    let mut r: Vec<u8> = Vec::new();
    let mut i: usize = 0;
    while i < n
        invariant
            n == a@.len(),
            i <= n,
            r@.len() == i,
            forall|j: int| 0 <= j < i ==> r@[j] == a@[j],
        decreases n - i,
    {
        r.push(a[i]);
        i += 1;
    }
    proof {
        assert(r@ =~= a@);
    }
    r
}

} // verus!
