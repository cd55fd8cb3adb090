//! Address spaces: page-granularity virtual memory with permission masks,
//! and the cross-space bridge that moves bytes between a user buffer and the
//! kernel, splitting every access at page boundaries.
use vstd::prelude::*;

use crate::MAX_VA;
use crate::MAX_VPN;
use crate::PAGE_SIZE;

verus! {

/// Permission mask of one mapped region: three independent access bits.
/// Every process-owned mapping also carries an implicit user-accessible bit,
/// so only the three access bits are modelled. A mask with no access bit set
/// is meaningless and rejected by `AddressSpace::map`.
#[derive(Clone, Copy, PartialEq, Eq, Structural, Debug)]
pub struct PagePerm {
    pub read: bool,
    pub write: bool,
    pub execute: bool,
}

impl PagePerm {
    /// A permission is valid when it grants at least one kind of access.
    pub open spec fn valid(self) -> bool {
        self.read || self.write || self.execute
    }
}

/// One mapped virtual region: `num_pages` pages starting at `start_vpn`,
/// backed by exclusively owned frames whose bytes are `data`.
#[verifier::ext_equal]
pub struct MapRegion {
    pub start_vpn: usize,
    pub num_pages: usize,
    pub perm: PagePerm,
    pub data: Vec<u8>,
}

impl MapRegion {
    pub open spec fn wf(self) -> bool {
        &&& 1 <= self.num_pages
        &&& self.start_vpn + self.num_pages <= MAX_VPN
        &&& self.data@.len() == self.num_pages * PAGE_SIZE
        &&& self.perm.valid()
    }

    pub open spec fn contains_vpn(self, vpn: int) -> bool {
        self.start_vpn <= vpn < self.start_vpn + self.num_pages
    }

    /// The byte this region backs at virtual address `va`.
    pub open spec fn byte_at(self, va: int) -> u8 {
        self.data@[va - self.start_vpn * PAGE_SIZE]
    }
}

/// One page-bounded piece of a translated user buffer: `len` bytes of the
/// frame backing page `vpn`, starting `offset` bytes into it, holding the
/// logical bytes that begin at virtual address `va`.
#[derive(Clone, Copy, PartialEq, Eq, Structural, Debug)]
pub struct BufSlice {
    pub va: usize,
    pub vpn: usize,
    pub offset: usize,
    pub len: usize,
}

/// Two regions are disjoint when no virtual page belongs to both.
pub open spec fn regions_disjoint(a: MapRegion, b: MapRegion) -> bool {
    a.start_vpn + a.num_pages <= b.start_vpn || b.start_vpn + b.num_pages <= a.start_vpn
}

/// The virtual memory of one process: an ordered set of mapped regions that
/// never overlap, plus the data-segment break used by `sbrk`.
#[verifier::ext_equal]
pub struct AddressSpace {
    pub regions: Vec<MapRegion>,
    pub heap_bottom: usize,
    pub brk: usize,
    pub heap_top: usize,
}

impl AddressSpace {
    pub open spec fn wf(self) -> bool {
        &&& forall|i: int|
            0 <= i < self.regions@.len() ==> (#[trigger] self.regions@[i]).wf()
        &&& forall|i: int, j: int|
            0 <= i < j < self.regions@.len() ==> regions_disjoint(
                #[trigger] self.regions@[i],
                #[trigger] self.regions@[j],
            )
        &&& self.heap_bottom <= self.brk <= self.heap_top <= MAX_VA
    }

    /// Whether virtual page `vpn` is mapped.
    pub open spec fn page_mapped(self, vpn: int) -> bool {
        exists|i: int|
            0 <= i < self.regions@.len() && (#[trigger] self.regions@[i]).contains_vpn(vpn)
    }

    /// Index of the region backing `vpn` (meaningful only when mapped).
    pub open spec fn region_idx(self, vpn: int) -> int {
        choose|i: int|
            0 <= i < self.regions@.len() && (#[trigger] self.regions@[i]).contains_vpn(vpn)
    }

    /// Permission of the mapped page `vpn`.
    pub open spec fn perm_at(self, vpn: int) -> PagePerm {
        self.regions@[self.region_idx(vpn)].perm
    }

    /// Whether the byte at virtual address `va` is mapped.
    pub open spec fn va_mapped(self, va: int) -> bool {
        self.page_mapped(va / (PAGE_SIZE as int))
    }

    /// The byte at virtual address `va` (meaningful only when mapped).
    pub open spec fn byte_at(self, va: int) -> u8 {
        self.regions@[self.region_idx(va / (PAGE_SIZE as int))].byte_at(va)
    }

    /// Every byte of `[va, va + len)` is mapped.
    pub open spec fn range_mapped(self, va: int, len: int) -> bool {
        forall|a: int| va <= a < va + len ==> self.va_mapped(a)
    }

    /// The bytes of user memory at `[va, va + len)`.
    pub open spec fn mem_bytes(self, va: int, len: int) -> Seq<u8> {
        Seq::new(len as nat, |i: int| self.byte_at(va + i))
    }
}

/// `a` and `b` map exactly the same pages with the same permissions and have
/// the same break; only frame contents may differ.
pub open spec fn same_layout(a: AddressSpace, b: AddressSpace) -> bool {
    &&& b.regions@.len() == a.regions@.len()
    &&& forall|i: int|
        0 <= i < a.regions@.len() ==> {
            &&& (#[trigger] b.regions@[i]).start_vpn == a.regions@[i].start_vpn
            &&& b.regions@[i].num_pages == a.regions@[i].num_pages
            &&& b.regions@[i].perm == a.regions@[i].perm
        }
    &&& b.heap_bottom == a.heap_bottom
    &&& b.brk == a.brk
    &&& b.heap_top == a.heap_top
}

/// `b` is `a` with at most the bytes of `[va, va + len)` rewritten.
pub open spec fn same_mem_except(a: AddressSpace, b: AddressSpace, va: int, len: int) -> bool {
    &&& same_layout(a, b)
    &&& forall|x: int|
        0 <= x < MAX_VA && !(va <= x < va + len) && a.va_mapped(x) ==> b.byte_at(x) == a.byte_at(
            x,
        )
}

/// `a` and `b` describe identical memory: same layout, same bytes everywhere.
pub open spec fn same_space(a: AddressSpace, b: AddressSpace) -> bool {
    same_mem_except(a, b, 0, 0)
}

impl AddressSpace {
    /// An empty address space whose data segment may grow from `heap_bottom`
    /// up to `heap_top`.
    pub fn new_empty(heap_bottom: usize, heap_top: usize) -> (r: AddressSpace)
        requires
            heap_bottom <= heap_top <= MAX_VA,
        ensures
            r.wf(),
            r.regions@.len() == 0,
            forall|vpn: int| !r.page_mapped(vpn),
            r.heap_bottom == heap_bottom,
            r.brk == heap_bottom,
            r.heap_top == heap_top,
    {
        AddressSpace { regions: Vec::new(), heap_bottom, brk: heap_bottom, heap_top }
    }

    /// The region backing `vpn` is exactly the one `region_idx` names.
    pub proof fn lemma_region_idx_unique(self, vpn: int, i: int)
        requires
            self.wf(),
            0 <= i < self.regions@.len(),
            self.regions@[i].contains_vpn(vpn),
        ensures
            self.page_mapped(vpn),
            self.region_idx(vpn) == i,
    {
        assert(self.page_mapped(vpn));
        let j = self.region_idx(vpn);
        if i != j {
            assert(regions_disjoint(self.regions@[i], self.regions@[j]) || regions_disjoint(
                self.regions@[j],
                self.regions@[i],
            ));
            assert(false);
        }
    }

    /// Two spaces with the same region metadata map the same pages alike.
    pub proof fn lemma_same_layout_lookup(a: AddressSpace, b: AddressSpace)
        requires
            a.wf(),
            same_layout(a, b),
        ensures
            b.wf() <==> (forall|i: int|
                0 <= i < b.regions@.len() ==> (#[trigger] b.regions@[i]).wf()),
            forall|vpn: int| a.page_mapped(vpn) <==> b.page_mapped(vpn),
            forall|vpn: int|
                a.page_mapped(vpn) ==> #[trigger] b.region_idx(vpn) == a.region_idx(vpn)
                    && b.perm_at(vpn) == a.perm_at(vpn),
    {
        assert forall|vpn: int| a.page_mapped(vpn) implies b.page_mapped(vpn) by {
            let i = a.region_idx(vpn);
            assert(b.regions@[i].contains_vpn(vpn));
        }
        assert forall|vpn: int| b.page_mapped(vpn) implies a.page_mapped(vpn) by {
            let i = choose|i: int|
                0 <= i < b.regions@.len() && (#[trigger] b.regions@[i]).contains_vpn(vpn);
            assert(a.regions@[i].contains_vpn(vpn));
        }
        assert forall|vpn: int| a.page_mapped(vpn) implies #[trigger] b.region_idx(vpn)
            == a.region_idx(vpn) && b.perm_at(vpn) == a.perm_at(vpn) by {
            let i = a.region_idx(vpn);
            assert(b.regions@[i].contains_vpn(vpn));
            let j = b.region_idx(vpn);
            assert(b.regions@[j].contains_vpn(vpn));
            if i != j {
                assert(regions_disjoint(a.regions@[i], a.regions@[j]) || regions_disjoint(
                    a.regions@[j],
                    a.regions@[i],
                ));
                assert(a.regions@[j].contains_vpn(vpn));
                assert(false);
            }
        }
    }

    /// Finds the region backing `vpn`, if any.
    fn find_region(&self, vpn: usize) -> (r: Option<usize>)
        requires
            self.wf(),
        ensures
            match r {
                Some(i) => i < self.regions@.len() && self.regions@[i as int].contains_vpn(
                    vpn as int,
                ) && self.region_idx(vpn as int) == i,
                None => !self.page_mapped(vpn as int),
            },
    {
        let n = self.regions.len();
        let mut i: usize = 0;
        while i < n
            invariant
                self.wf(),
                n == self.regions@.len(),
                i <= n,
                forall|j: int| 0 <= j < i ==> !(#[trigger] self.regions@[j]).contains_vpn(
                    vpn as int,
                ),
            decreases n - i,
        {
            let reg = &self.regions[i];
            if reg.start_vpn <= vpn && vpn < reg.start_vpn + reg.num_pages {
                proof {
                    self.lemma_region_idx_unique(vpn as int, i as int);
                }
                return Some(i);
            }
            i += 1;
        }
        None
    }

    /// Virtual-to-physical translation: the permission of the page backing
    /// `vpn`, or a lookup failure when the page is unmapped — never a silent
    /// zero page.
    pub fn translate(&self, vpn: usize) -> (r: Option<PagePerm>)
        requires
            self.wf(),
        ensures
            match r {
                Some(p) => self.page_mapped(vpn as int) && p == self.perm_at(vpn as int),
                None => !self.page_mapped(vpn as int),
            },
    {
        match self.find_region(vpn) {
            Some(i) => Some(self.regions[i].perm),
            None => None,
        }
    }

    /// Reads the user byte at `va`, or fails if that page is unmapped.
    pub fn read_byte(&self, va: usize) -> (r: Option<u8>)
        requires
            self.wf(),
            va < MAX_VA,
        ensures
            match r {
                Some(b) => self.va_mapped(va as int) && b == self.byte_at(va as int),
                None => !self.va_mapped(va as int),
            },
    {
        let vpn = va / PAGE_SIZE;
        match self.find_region(vpn) {
            Some(i) => {
                let reg = &self.regions[i];
                let idx = va - reg.start_vpn * PAGE_SIZE;
                proof {
                    vstd::arithmetic::div_mod::lemma_fundamental_div_mod(
                        va as int,
                        PAGE_SIZE as int,
                    );
                }
                Some(reg.data[idx])
            },
            None => None,
        }
    }

    /// Writes one byte into user memory, or fails if the page is unmapped.
    pub fn write_byte(&mut self, va: usize, b: u8) -> (ok: bool)
        requires
            old(self).wf(),
            va < MAX_VA,
        ensures
            final(self).wf(),
            ok <==> old(self).va_mapped(va as int),
            same_mem_except(*old(self), *final(self), va as int, 1),
            ok ==> final(self).byte_at(va as int) == b,
    {
        let vpn = va / PAGE_SIZE;
        match self.find_region(vpn) {
            Some(i) => {
                let reg_start = self.regions[i].start_vpn;
                let idx = va - reg_start * PAGE_SIZE;
                proof {
                    vstd::arithmetic::div_mod::lemma_fundamental_div_mod(
                        va as int,
                        PAGE_SIZE as int,
                    );
                }
                self.regions[i].data[idx] = b;
                proof {
                    let pre = *old(self);
                    let post = *self;
                    assert(same_layout(pre, post));
                    Self::lemma_same_layout_lookup(pre, post);
                    assert forall|x: int|
                        0 <= x < MAX_VA && x != va && pre.va_mapped(x) implies post.byte_at(x)
                        == pre.byte_at(x) by {
                        let xv = x / (PAGE_SIZE as int);
                        let j = pre.region_idx(xv);
                        vstd::arithmetic::div_mod::lemma_fundamental_div_mod(x, PAGE_SIZE as int);
                        if j == i {
                            assert(post.byte_at(x) == pre.byte_at(x));
                        }
                    }
                }
                true
            },
            None => false,
        }
    }

    /// Checks that every byte of the user range `[va, va + len)` translates.
    pub fn check_range(&self, va: usize, len: usize) -> (ok: bool)
        requires
            self.wf(),
            va + len <= MAX_VA,
        ensures
            ok <==> self.range_mapped(va as int, len as int),
    {
        let mut i: usize = 0;
        while i < len
            invariant
                self.wf(),
                va + len <= MAX_VA,
                i <= len,
                forall|a: int| va <= a < va + i ==> self.va_mapped(a),
            decreases len - i,
        {
            let vpn = (va + i) / PAGE_SIZE;
            if self.find_region(vpn).is_none() {
                proof {
                    assert(!self.va_mapped((va + i) as int));
                }
                return false;
            }
            i += 1;
        }
        true
    }

    /// Translates the user buffer `[va, va + len)` into an ordered sequence
    /// of physical byte ranges whose concatenation is exactly the logical
    /// buffer; each slice lies within a single page, because a buffer may
    /// straddle two or more frames. Fails if any byte is unmapped.
    pub fn translate_buffer(&self, va: usize, len: usize) -> (r: Option<Vec<BufSlice>>)
        requires
            self.wf(),
            va + len <= MAX_VA,
        ensures
            match r {
                Some(sl) => {
                    &&& self.range_mapped(va as int, len as int)
                    &&& (len == 0 ==> sl@.len() == 0)
                    &&& (len > 0 ==> sl@.len() > 0 && sl@[0].va == va && sl@[sl@.len() - 1].va
                        + sl@[sl@.len() - 1].len == va + len)
                    &&& forall|i: int|
                        0 <= i < sl@.len() ==> {
                            let c = #[trigger] sl@[i];
                            &&& c.len > 0
                            &&& c.vpn == c.va / PAGE_SIZE
                            &&& c.offset == c.va % PAGE_SIZE
                            &&& c.offset + c.len <= PAGE_SIZE
                            &&& self.page_mapped(c.vpn as int)
                        }
                    &&& forall|i: int|
                        0 <= i < sl@.len() - 1 ==> (#[trigger] sl@[i + 1]).va == sl@[i].va
                            + sl@[i].len
                },
                None => !self.range_mapped(va as int, len as int),
            },
    {
        if !self.check_range(va, len) {
            return None;
        }
        let mut sl: Vec<BufSlice> = Vec::new();
        let mut cur: usize = va;
        while cur < va + len
            invariant
                self.wf(),
                va + len <= MAX_VA,
                va <= cur <= va + len,
                self.range_mapped(va as int, len as int),
                cur == va ==> sl@.len() == 0,
                cur > va ==> sl@.len() > 0 && sl@[0].va == va && sl@[sl@.len() - 1].va + sl@[
                    sl@.len() - 1
                ].len == cur,
                forall|i: int|
                    0 <= i < sl@.len() ==> {
                        let c = #[trigger] sl@[i];
                        &&& c.len > 0
                        &&& c.vpn == c.va / PAGE_SIZE
                        &&& c.offset == c.va % PAGE_SIZE
                        &&& c.offset + c.len <= PAGE_SIZE
                        &&& self.page_mapped(c.vpn as int)
                    },
                forall|i: int|
                    0 <= i < sl@.len() - 1 ==> (#[trigger] sl@[i + 1]).va == sl@[i].va + sl@[
                        i
                    ].len,
            decreases va + len - cur,
        {
            let vpn = cur / PAGE_SIZE;
            let offset = cur % PAGE_SIZE;
            let room = PAGE_SIZE - offset;
            let rest = va + len - cur;
            let n = if rest < room {
                rest
            } else {
                room
            };
            proof {
                assert(self.va_mapped(cur as int));
            }
            sl.push(BufSlice { va: cur, vpn, offset, len: n });
            cur = cur + n;
        }
        Some(sl)
    }

    /// Copies `[va, va + len)` of user memory into a fresh kernel buffer,
    /// translating again at every page crossing; fails (touching nothing) if
    /// any byte of the range is unmapped.
    pub fn read_buffer(&self, va: usize, len: usize) -> (r: Option<Vec<u8>>)
        requires
            self.wf(),
            va + len <= MAX_VA,
        ensures
            match r {
                Some(buf) => self.range_mapped(va as int, len as int) && buf@ == self.mem_bytes(
                    va as int,
                    len as int,
                ),
                None => !self.range_mapped(va as int, len as int),
            },
    {
        let mut buf: Vec<u8> = Vec::new();
        let mut i: usize = 0;
        while i < len
            invariant
                self.wf(),
                va + len <= MAX_VA,
                i <= len,
                buf@.len() == i,
                forall|a: int| va <= a < va + i ==> self.va_mapped(a),
                forall|j: int| 0 <= j < i ==> buf@[j] == self.byte_at(va + j),
            decreases len - i,
        {
            match self.read_byte(va + i) {
                Some(b) => {
                    buf.push(b);
                },
                None => {
                    return None;
                },
            }
            i += 1;
        }
        proof {
            assert(buf@ =~= self.mem_bytes(va as int, len as int));
        }
        Some(buf)
    }

    /// Writes `data` into user memory at `va`, splitting the byte image
    /// across page boundaries; the whole range is validated before the first
    /// byte is written, so a failure mutates nothing.
    pub fn write_buffer(&mut self, va: usize, data: &Vec<u8>) -> (ok: bool)
        requires
            old(self).wf(),
            va + data@.len() <= MAX_VA,
        ensures
            final(self).wf(),
            ok <==> old(self).range_mapped(va as int, data@.len() as int),
            same_mem_except(*old(self), *final(self), va as int, data@.len() as int),
            ok ==> final(self).mem_bytes(va as int, data@.len() as int) == data@,
            !ok ==> *final(self) == *old(self),
    {
        let len = data.len();
        if !self.check_range(va, len) {
            proof {
                assert(same_mem_except(*old(self), *self, va as int, data@.len() as int));
            }
            return false;
        }
        let mut i: usize = 0;
        while i < len
            invariant
                old(self).wf(),
                self.wf(),
                va + len <= MAX_VA,
                len == data@.len(),
                i <= len,
                same_layout(*old(self), *self),
                old(self).range_mapped(va as int, len as int),
                self.range_mapped(va as int, len as int),
                forall|x: int|
                    0 <= x < MAX_VA && !(va <= x < va + len) && old(self).va_mapped(x)
                        ==> #[trigger] self.byte_at(x) == old(self).byte_at(x),
                forall|j: int| 0 <= j < i ==> #[trigger] self.byte_at(va + j) == data@[j],
                forall|j: int| i <= j < len ==> #[trigger] self.byte_at(va + j) == old(self).byte_at(va + j),
            decreases len - i,
        {
            let ghost pre = *self;
            proof {
                Self::lemma_same_layout_lookup(*old(self), pre);
                assert(pre.va_mapped((va + i) as int));
            }
            let ok = self.write_byte(va + i, data[i]);
            proof {
                assert(ok);
                Self::lemma_same_layout_lookup(pre, *self);
                assert(same_layout(*old(self), *self));
                assert forall|x: int|
                    0 <= x < MAX_VA && !(va <= x < va + len) && old(self).va_mapped(x)
                        implies #[trigger] self.byte_at(x) == old(self).byte_at(x) by {
                    assert(pre.va_mapped(x));
                    assert(self.byte_at(x) == pre.byte_at(x));
                }
                assert forall|j: int| 0 <= j < i + 1 implies #[trigger] self.byte_at(va + j)
                    == data@[j] by {
                    if j < i {
                        assert(pre.va_mapped(va + j));
                        assert(self.byte_at(va + j) == pre.byte_at(va + j));
                        assert(pre.byte_at(va + j) == data@[j]);
                    } else {
                        assert(self.byte_at(va + i) == data@[i as int]);
                    }
                }
                assert forall|j: int| i + 1 <= j < len implies #[trigger] self.byte_at(va + j)
                    == old(self).byte_at(va + j) by {
                    assert(pre.va_mapped(va + j));
                    assert(self.byte_at(va + j) == pre.byte_at(va + j));
                    assert(pre.byte_at(va + j) == old(self).byte_at(va + j));
                }
                assert forall|x: int| va <= x < va + len implies self.va_mapped(x) by {
                    assert(pre.va_mapped(x));
                }
            }
            i += 1;
        }
        proof {
            assert(final(self).mem_bytes(va as int, data@.len() as int) =~= data@);
        }
        true
    }

    /// Reads the user bytes from `va` up to (not including) the first zero
    /// terminator, translating anew at every page crossing; fails if the walk
    /// leaves mapped memory before a terminator is found.
    pub fn read_cstr(&self, va: usize) -> (r: Option<Vec<u8>>)
        requires
            self.wf(),
            va < MAX_VA,
        ensures
            match r {
                Some(s) => self.is_cstr_at(va as int, s@),
                None => forall|s: Seq<u8>| !self.is_cstr_at(va as int, s),
            },
    {
        let mut buf: Vec<u8> = Vec::new();
        let mut a: usize = va;
        while a < MAX_VA
            invariant
                self.wf(),
                va <= a <= MAX_VA,
                buf@.len() == a - va,
                forall|j: int| 0 <= j < buf@.len() ==> {
                    &&& #[trigger] self.va_mapped(va + j)
                    &&& buf@[j] == self.byte_at(va + j)
                    &&& buf@[j] != 0
                },
            decreases MAX_VA - a,
        {
            let ghost blen = buf@.len() as int;
            match self.read_byte(a) {
                Some(b) => {
                    if b == 0 {
                        proof {
                            assert(self.va_mapped(va + blen) && self.byte_at(va + blen) == 0);
                            assert(self.is_cstr_at(va as int, buf@));
                        }
                        return Some(buf);
                    }
                    buf.push(b);
                    proof {
                        assert forall|j: int| 0 <= j < buf@.len() implies {
                            &&& #[trigger] self.va_mapped(va + j)
                            &&& buf@[j] == self.byte_at(va + j)
                            &&& buf@[j] != 0
                        } by {
                            if j == blen {
                                assert(va + j == a);
                                assert(self.va_mapped(a as int));
                            }
                        }
                    }
                },
                None => {
                    proof {
                        assert(!self.va_mapped(va + blen));
                        assert forall|j: int| 0 <= j < blen implies #[trigger] self.va_mapped(
                            va + j,
                        ) && self.byte_at(va + j) != 0 by {
                            assert(self.va_mapped(va + j) && buf@[j] == self.byte_at(va + j)
                                && buf@[j] != 0);
                        }
                        self.lemma_no_cstr(va as int, blen);
                    }
                    return None;
                },
            }
            a += 1;
        }
        proof {
            assert forall|j: int| 0 <= j < buf@.len() implies #[trigger] self.va_mapped(va + j)
                && self.byte_at(va + j) != 0 by {
                assert(self.va_mapped(va + j) && buf@[j] == self.byte_at(va + j) && buf@[j] != 0);
            }
            self.lemma_no_cstr(va as int, buf@.len() as int);
        }
        None
    }

    /// `s` is the zero-terminated byte string stored in user memory at `va`.
    pub open spec fn is_cstr_at(self, va: int, s: Seq<u8>) -> bool {
        &&& va + s.len() < MAX_VA
        &&& forall|j: int| 0 <= j < s.len() ==> {
            &&& #[trigger] self.va_mapped(va + j)
            &&& s[j] == self.byte_at(va + j)
            &&& s[j] != 0
        }
        &&& self.va_mapped(va + s.len())
        &&& self.byte_at(va + s.len()) == 0
    }

    /// At most one zero-terminated string is stored at `va`.
    pub proof fn lemma_cstr_unique(self, va: int, s1: Seq<u8>, s2: Seq<u8>)
        requires
            self.is_cstr_at(va, s1),
            self.is_cstr_at(va, s2),
        ensures
            s1 == s2,
    {
        if s1.len() < s2.len() {
            assert(self.va_mapped(va + s1.len()));
            assert(s2[s1.len() as int] == self.byte_at(va + s1.len()));
            assert(false);
        } else if s2.len() < s1.len() {
            assert(self.va_mapped(va + s2.len()));
            assert(s1[s2.len() as int] == self.byte_at(va + s2.len()));
            assert(false);
        } else {
            assert forall|j: int| 0 <= j < s1.len() implies s1[j] == s2[j] by {
                assert(self.va_mapped(va + j));
                assert(s1[j] == self.byte_at(va + j));
                assert(s2[j] == self.byte_at(va + j));
            }
            assert(s1 =~= s2);
        }
    }

    /// If the first `n` bytes from `va` are mapped and nonzero but byte `n`
    /// is unmapped or out of range, no string at all is stored at `va`.
    proof fn lemma_no_cstr(self, va: int, n: int)
        requires
            self.wf(),
            0 <= n,
            va + n <= MAX_VA,
            forall|j: int| 0 <= j < n ==> #[trigger] self.va_mapped(va + j) && self.byte_at(va + j) != 0,
            va + n == MAX_VA || !self.va_mapped(va + n),
        ensures
            forall|s: Seq<u8>| !self.is_cstr_at(va, s),
    {
        assert forall|s: Seq<u8>| !self.is_cstr_at(va, s) by {
            if self.is_cstr_at(va, s) {
                if s.len() < n {
                    assert(self.va_mapped(va + s.len()));
                    assert(self.byte_at(va + s.len()) != 0);
                } else if s.len() == n {
                    assert(va + n < MAX_VA && self.va_mapped(va + n));
                } else {
                    assert(self.va_mapped(va + n));
                }
            }
        }
    }

    /// Whether the page range `[start_vpn, start_vpn + num_pages)` is free,
    /// so that `map` would accept it.
    pub fn can_map(&self, start_vpn: usize, num_pages: usize) -> (ok: bool)
        requires
            self.wf(),
            start_vpn + num_pages <= MAX_VPN,
        ensures
            ok <==> (forall|vpn: int|
                start_vpn <= vpn < start_vpn + num_pages ==> !self.page_mapped(vpn)),
    {
        if num_pages == 0 {
            return true;
        }
        let n = self.regions.len();
        let mut i: usize = 0;
        while i < n
            invariant
                self.wf(),
                n == self.regions@.len(),
                i <= n,
                1 <= num_pages,
                start_vpn + num_pages <= MAX_VPN,
                forall|j: int| 0 <= j < i ==> ((#[trigger] self.regions@[j]).start_vpn
                    + self.regions@[j].num_pages <= start_vpn || start_vpn + num_pages
                    <= self.regions@[j].start_vpn),
            decreases n - i,
        {
            let reg = &self.regions[i];
            if reg.start_vpn < start_vpn + num_pages && start_vpn < reg.start_vpn
                + reg.num_pages {
                proof {
                    let overlap_vpn = if reg.start_vpn >= start_vpn {
                        reg.start_vpn as int
                    } else {
                        start_vpn as int
                    };
                    assert(self.regions@[i as int].contains_vpn(overlap_vpn));
                    assert(start_vpn <= overlap_vpn < start_vpn + num_pages);
                    assert(self.page_mapped(overlap_vpn));
                }
                return false;
            }
            i += 1;
        }
        proof {
            assert forall|vpn: int|
                start_vpn <= vpn < start_vpn + num_pages implies !self.page_mapped(vpn) by {
                if self.page_mapped(vpn) {
                    let j = self.region_idx(vpn);
                    assert(self.regions@[j].contains_vpn(vpn));
                }
            }
        }
        true
    }

    /// Whether some region aligns exactly with these bounds, so that `unmap`
    /// would accept them.
    pub fn has_exact_region(&self, start_vpn: usize, num_pages: usize) -> (ok: bool)
        requires
            self.wf(),
        ensures
            ok <==> (exists|i: int|
                0 <= i < self.regions@.len() && (#[trigger] self.regions@[i]).start_vpn
                    == start_vpn && self.regions@[i].num_pages == num_pages),
    {
        let n = self.regions.len();
        let mut i: usize = 0;
        while i < n
            invariant
                self.wf(),
                n == self.regions@.len(),
                i <= n,
                forall|j: int| 0 <= j < i ==> !((#[trigger] self.regions@[j]).start_vpn
                    == start_vpn && self.regions@[j].num_pages == num_pages),
            decreases n - i,
        {
            let reg = &self.regions[i];
            if reg.start_vpn == start_vpn && reg.num_pages == num_pages {
                proof {
                    assert((self.regions@[i as int]).start_vpn == start_vpn
                        && self.regions@[i as int].num_pages == num_pages);
                }
                return true;
            }
            i += 1;
        }
        false
    }

    /// Reserves and backs `[start_vpn, start_vpn + num_pages)` with fresh
    /// zero-filled frames under `perm`; fails, changing nothing, when any
    /// page of the range is already mapped.
    pub fn map(&mut self, start_vpn: usize, num_pages: usize, perm: PagePerm) -> (ok: bool)
        requires
            old(self).wf(),
            perm.valid(),
            1 <= num_pages,
            start_vpn + num_pages <= MAX_VPN,
        ensures
            final(self).wf(),
            ok <==> (forall|vpn: int|
                start_vpn <= vpn < start_vpn + num_pages ==> !old(self).page_mapped(vpn)),
            ok ==> {
                &&& final(self).regions@.len() == old(self).regions@.len() + 1
                &&& final(self).regions@[old(self).regions@.len() as int].start_vpn == start_vpn
                &&& final(self).regions@[old(self).regions@.len() as int].num_pages == num_pages
                &&& forall|vpn: int|
                    start_vpn <= vpn < start_vpn + num_pages ==> final(self).page_mapped(vpn)
                        && final(self).perm_at(vpn) == perm
                &&& forall|vpn: int|
                    !(start_vpn <= vpn < start_vpn + num_pages) ==> (final(self).page_mapped(vpn)
                        <==> old(self).page_mapped(vpn)) && (old(self).page_mapped(vpn)
                        ==> final(self).perm_at(vpn) == old(self).perm_at(vpn))
                &&& forall|x: int|
                    start_vpn * PAGE_SIZE <= x < (start_vpn + num_pages) * PAGE_SIZE ==> final(self).byte_at(x) == 0
                &&& forall|x: int|
                    0 <= x < MAX_VA && old(self).va_mapped(x) ==> final(self).byte_at(x) == old(self).byte_at(x)
                &&& final(self).heap_bottom == old(self).heap_bottom && final(self).brk == old(self).brk && final(self).heap_top == old(self).heap_top
            },
            !ok ==> *final(self) == *old(self),
    {
        let n = self.regions.len();
        let mut i: usize = 0;
        while i < n
            invariant
                *self == *old(self),
                self.wf(),
                n == self.regions@.len(),
                i <= n,
                start_vpn + num_pages <= MAX_VPN,
                1 <= num_pages,
                forall|j: int| 0 <= j < i ==> ((#[trigger] self.regions@[j]).start_vpn
                    + self.regions@[j].num_pages <= start_vpn || start_vpn + num_pages
                    <= self.regions@[j].start_vpn),
            decreases n - i,
        {
            let reg = &self.regions[i];
            if reg.start_vpn < start_vpn + num_pages && start_vpn < reg.start_vpn
                + reg.num_pages {
                proof {
                    let overlap_vpn = if reg.start_vpn >= start_vpn {
                        reg.start_vpn as int
                    } else {
                        start_vpn as int
                    };
                    assert(self.regions@[i as int].contains_vpn(overlap_vpn));
                    assert(old(self).page_mapped(overlap_vpn));
                }
                return false;
            }
            i += 1;
        }
        let data = alloc_zero_frames(num_pages);
        let new_region = MapRegion { start_vpn, num_pages, perm, data };
        let ghost pre = *self;
        self.regions.push(new_region);
        proof {
            let post = *self;
            let k = pre.regions@.len() as int;
            assert(post.regions@[k].contains_vpn(start_vpn as int));
            assert forall|vpn: int| start_vpn <= vpn < start_vpn + num_pages implies !pre
                .page_mapped(vpn) by {
                if pre.page_mapped(vpn) {
                    let j = pre.region_idx(vpn);
                    assert(regions_disjoint(pre.regions@[j], new_region));
                }
            }
            assert(post.wf());
            assert forall|vpn: int| start_vpn <= vpn < start_vpn + num_pages implies post
                .page_mapped(vpn) && post.perm_at(vpn) == perm by {
                assert(post.regions@[k].contains_vpn(vpn));
                post.lemma_region_idx_unique(vpn, k);
            }
            assert forall|vpn: int| !(start_vpn <= vpn < start_vpn + num_pages) implies (post
                .page_mapped(vpn) <==> pre.page_mapped(vpn)) && (pre.page_mapped(vpn) ==> post
                .perm_at(vpn) == pre.perm_at(vpn)) by {
                if pre.page_mapped(vpn) {
                    let j = pre.region_idx(vpn);
                    assert(post.regions@[j].contains_vpn(vpn));
                    post.lemma_region_idx_unique(vpn, j);
                    pre.lemma_region_idx_unique(vpn, j);
                }
                if post.page_mapped(vpn) {
                    let j = post.region_idx(vpn);
                    assert(j != k);
                    assert(pre.regions@[j].contains_vpn(vpn));
                }
            }
            assert forall|x: int|
                start_vpn * PAGE_SIZE <= x < (start_vpn + num_pages) * PAGE_SIZE implies post
                .byte_at(x) == 0 by {
                vstd::arithmetic::div_mod::lemma_fundamental_div_mod(x, PAGE_SIZE as int);
                let vpn = x / (PAGE_SIZE as int);
                assert(post.regions@[k].contains_vpn(vpn));
                post.lemma_region_idx_unique(vpn, k);
            }
            assert forall|x: int| 0 <= x < MAX_VA && pre.va_mapped(x) implies post.byte_at(x)
                == pre.byte_at(x) by {
                let vpn = x / (PAGE_SIZE as int);
                let j = pre.region_idx(vpn);
                assert(post.regions@[j].contains_vpn(vpn));
                post.lemma_region_idx_unique(vpn, j);
                pre.lemma_region_idx_unique(vpn, j);
            }
        }
        true
    }

    /// Releases the region that was mapped with exactly these bounds,
    /// returning its frames; fails, changing nothing, when no region aligns
    /// exactly with `[start_vpn, start_vpn + num_pages)`.
    pub fn unmap(&mut self, start_vpn: usize, num_pages: usize) -> (ok: bool)
        requires
            old(self).wf(),
        ensures
            final(self).wf(),
            ok <==> (exists|i: int|
                0 <= i < old(self).regions@.len() && (#[trigger] old(self).regions@[i]).start_vpn
                    == start_vpn && old(self).regions@[i].num_pages == num_pages),
            ok ==> {
                &&& forall|vpn: int|
                    start_vpn <= vpn < start_vpn + num_pages ==> !final(self).page_mapped(vpn)
                &&& forall|vpn: int|
                    !(start_vpn <= vpn < start_vpn + num_pages) ==> (final(self).page_mapped(vpn)
                        <==> old(self).page_mapped(vpn)) && (old(self).page_mapped(vpn)
                        ==> final(self).perm_at(vpn) == old(self).perm_at(vpn) && (forall|x: int|
                        vpn * PAGE_SIZE <= x < (vpn + 1) * PAGE_SIZE ==> final(self).byte_at(x)
                            == old(self).byte_at(x)))
                &&& final(self).heap_bottom == old(self).heap_bottom && final(self).brk == old(self).brk && final(self).heap_top == old(self).heap_top
            },
            !ok ==> *final(self) == *old(self),
    {
        let n = self.regions.len();
        let mut i: usize = 0;
        while i < n
            invariant
                *self == *old(self),
                self.wf(),
                n == self.regions@.len(),
                i <= n,
                forall|j: int| 0 <= j < i ==> !((#[trigger] self.regions@[j]).start_vpn
                    == start_vpn && self.regions@[j].num_pages == num_pages),
            decreases n - i,
        {
            let reg = &self.regions[i];
            if reg.start_vpn == start_vpn && reg.num_pages == num_pages {
                let ghost pre = *self;
                proof {
                    assert((old(self).regions@[i as int]).start_vpn == start_vpn
                        && old(self).regions@[i as int].num_pages == num_pages);
                }
                let _removed = self.regions.remove(i);
                proof {
                    let post = *self;
                    let k = i as int;
                    assert forall|a: int, b: int|
                        0 <= a < b < post.regions@.len() implies regions_disjoint(
                        #[trigger] post.regions@[a],
                        #[trigger] post.regions@[b],
                    ) by {
                        let pa = if a < k { a } else { a + 1 };
                        let pb = if b < k { b } else { b + 1 };
                        assert(post.regions@[a] == pre.regions@[pa]);
                        assert(post.regions@[b] == pre.regions@[pb]);
                    }
                    assert(post.wf());
                    assert forall|vpn: int|
                        start_vpn <= vpn < start_vpn + num_pages implies !post.page_mapped(
                        vpn,
                    ) by {
                        if post.page_mapped(vpn) {
                            let j = post.region_idx(vpn);
                            let pj = if j < k { j } else { j + 1 };
                            assert(pre.regions@[pj].contains_vpn(vpn));
                            assert(pre.regions@[k].contains_vpn(vpn));
                            assert(pj != k);
                            assert(regions_disjoint(pre.regions@[k], pre.regions@[pj])
                                || regions_disjoint(pre.regions@[pj], pre.regions@[k]));
                        }
                    }
                    assert forall|vpn: int|
                        !(start_vpn <= vpn < start_vpn + num_pages) implies (post.page_mapped(vpn)
                        <==> pre.page_mapped(vpn)) && (pre.page_mapped(vpn) ==> post.perm_at(vpn)
                        == pre.perm_at(vpn) && (forall|x: int|
                        vpn * PAGE_SIZE <= x < (vpn + 1) * PAGE_SIZE ==> post.byte_at(x)
                            == pre.byte_at(x))) by {
                        if pre.page_mapped(vpn) {
                            let j = pre.region_idx(vpn);
                            assert(j != k);
                            let nj = if j < k { j } else { j - 1 };
                            assert(post.regions@[nj] == pre.regions@[j]);
                            assert(post.regions@[nj].contains_vpn(vpn));
                            post.lemma_region_idx_unique(vpn, nj);
                            pre.lemma_region_idx_unique(vpn, j);
                            assert forall|x: int|
                                vpn * PAGE_SIZE <= x < (vpn + 1) * PAGE_SIZE implies post.byte_at(
                                x,
                            ) == pre.byte_at(x) by {
                                vstd::arithmetic::div_mod::lemma_fundamental_div_mod_converse(
                                    x,
                                    PAGE_SIZE as int,
                                    vpn,
                                    x - vpn * (PAGE_SIZE as int),
                                );
                            }
                        }
                        if post.page_mapped(vpn) {
                            let j = post.region_idx(vpn);
                            let pj = if j < k { j } else { j + 1 };
                            assert(pre.regions@[pj].contains_vpn(vpn));
                        }
                    }
                }
                return true;
            }
            i += 1;
        }
        false
    }

    /// Moves the data-segment break by `delta` bytes, returning the previous
    /// break; fails, changing nothing, when the new break would leave
    /// `[heap_bottom, heap_top]`.
    pub fn change_brk(&mut self, delta: i32) -> (r: Option<usize>)
        requires
            old(self).wf(),
        ensures
            final(self).wf(),
            match r {
                Some(old_brk) => {
                    &&& old_brk == old(self).brk
                    &&& old(self).heap_bottom <= old(self).brk + delta <= old(self).heap_top
                    &&& *final(self) == AddressSpace {
                        brk: (old(self).brk + delta) as usize,
                        ..*old(self)
                    }
                },
                None => !(old(self).heap_bottom <= old(self).brk + delta <= old(self).heap_top)
                    && *final(self) == *old(self),
            },
    {
        let old_brk = self.brk;
        if delta >= 0 {
            let d = delta as usize;
            if d <= self.heap_top - self.brk {
                self.brk = self.brk + d;
                Some(old_brk)
            } else {
                None
            }
        } else {
            let d = (-(delta as i64)) as usize;
            if d <= self.brk - self.heap_bottom {
                self.brk = self.brk - d;
                Some(old_brk)
            } else {
                None
            }
        }
    }
}

/// Allocates `num_pages` fresh frames, zero-filled, as one byte array.
fn alloc_zero_frames(num_pages: usize) -> (data: Vec<u8>)
    requires
        num_pages <= MAX_VPN,
    ensures
        data@.len() == num_pages * PAGE_SIZE,
        forall|i: int| 0 <= i < data@.len() ==> data@[i] == 0,
{
    let total = num_pages * PAGE_SIZE;
    let mut data: Vec<u8> = Vec::new();
    let mut i: usize = 0;
    while i < total
        invariant
            i <= total,
            data@.len() == i,
            forall|j: int| 0 <= j < i ==> data@[j] == 0,
        decreases total - i,
    {
        data.push(0);
        i += 1;
    }
    data
}

} // verus!
