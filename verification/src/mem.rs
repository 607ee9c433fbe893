use vstd::prelude::*;
use crate::config::{PAGE_SIZE, MAX_VPN, MAX_VA};

verus! {

/// One mapped virtual-memory region: `len_pages` consecutive virtual pages
/// starting at `start_vpn`, each backed by the physical frame named in
/// `frames`, all with the same permission bits (1 = readable, 2 = writable,
/// 4 = executable).
pub struct Region {
    pub start_vpn: usize,
    pub len_pages: usize,
    pub perm: usize,
    pub frames: Vec<usize>,
}

impl Region {
    pub open spec fn wf(self, n_frames: int) -> bool {
        &&& 0 < self.len_pages
        &&& self.start_vpn + self.len_pages <= MAX_VPN
        &&& 1 <= self.perm <= 7
        &&& self.frames@.len() == self.len_pages
        &&& forall|j: int| 0 <= j < self.frames@.len() ==> #[trigger] self.frames@[j] < n_frames
    }

    pub open spec fn contains_vpn(self, vpn: int) -> bool {
        self.start_vpn <= vpn < self.start_vpn + self.len_pages
    }

    pub open spec fn disjoint(self, other: Region) -> bool {
        self.start_vpn + self.len_pages <= other.start_vpn
            || other.start_vpn + other.len_pages <= self.start_vpn
    }

    /// The region touches the (non-empty) page range `[lo, hi)`.
    pub open spec fn overlaps_range(self, lo: int, hi: int) -> bool {
        lo < hi && !(self.start_vpn + self.len_pages <= lo || hi <= self.start_vpn)
    }

    /// The region lies entirely inside the page range `[lo, hi)`.
    pub open spec fn within(self, lo: int, hi: int) -> bool {
        lo <= self.start_vpn && self.start_vpn + self.len_pages <= hi
    }
}

/// The machine's physical memory, as the kernel sees it: a flat byte array in
/// whole-page units.  Frame `f` occupies bytes `[f * PAGE_SIZE, (f + 1) *
/// PAGE_SIZE)`.  Frames are handed out in order of allocation and never
/// reused; the frame allocator itself is outside this layer.
pub struct PhysMem {
    pub bytes: Vec<u8>,
}

impl PhysMem {
    pub open spec fn wf(self) -> bool {
        self.bytes@.len() as int % (PAGE_SIZE as int) == 0
    }

    pub open spec fn n_frames(self) -> int {
        self.bytes@.len() as int / (PAGE_SIZE as int)
    }

    pub open spec fn frame_byte(self, ppn: int, off: int) -> u8 {
        self.bytes@[ppn * (PAGE_SIZE as int) + off]
    }
}

/// One task's virtual address space: the set of mapped regions plus the
/// program-break (heap) segment `[heap_base, brk)`.
pub struct AddressSpace {
    pub regions: Vec<Region>,
    pub heap_base: usize,
    pub brk: usize,
}

impl AddressSpace {
    /// First heap page.
    pub open spec fn heap_lo(self) -> int {
        self.heap_base as int / (PAGE_SIZE as int)
    }

    /// One past the last heap page ([heap_base, brk) rounded out to pages).
    pub open spec fn heap_hi(self) -> int {
        (self.brk + PAGE_SIZE - 1) as int / (PAGE_SIZE as int)
    }

    /// Structural part of well-formedness: region ranges are legal and
    /// pairwise disjoint, and none collides with the heap segment.
    pub open spec fn regions_disjoint(self) -> bool {
        &&& forall|i: int, j: int|
            0 <= i < self.regions@.len() && 0 <= j < self.regions@.len() && i != j
                ==> (#[trigger] self.regions@[i]).disjoint(#[trigger] self.regions@[j])
        &&& forall|i: int| 0 <= i < self.regions@.len()
                ==> !(#[trigger] self.regions@[i]).overlaps_range(self.heap_lo(), self.heap_hi())
    }

    /// No physical frame backs two different pages of this space, so distinct
    /// virtual addresses resolve to distinct physical locations.
    pub open spec fn frames_injective(self) -> bool {
        forall|i1: int, j1: int, i2: int, j2: int|
            0 <= i1 < self.regions@.len() && 0 <= j1 < self.regions@[i1].frames@.len()
            && 0 <= i2 < self.regions@.len() && 0 <= j2 < self.regions@[i2].frames@.len()
            && (i1 != i2 || j1 != j2)
                ==> #[trigger] self.regions@[i1].frames@[j1] != #[trigger] self.regions@[i2].frames@[j2]
    }

    pub open spec fn wf(self, n_frames: int) -> bool {
        &&& forall|i: int| 0 <= i < self.regions@.len() ==> (#[trigger] self.regions@[i]).wf(n_frames)
        &&& self.regions_disjoint()
        &&& self.frames_injective()
        &&& self.heap_base % PAGE_SIZE == 0
        &&& self.heap_base <= self.brk <= MAX_VA
    }

    pub open spec fn mapped(self, vpn: int) -> bool {
        exists|i: int| 0 <= i < self.regions@.len() && (#[trigger] self.regions@[i]).contains_vpn(vpn)
    }

    /// Index of the (unique, by disjointness) region containing `vpn`.
    pub open spec fn region_of(self, vpn: int) -> int {
        choose|i: int| 0 <= i < self.regions@.len() && (#[trigger] self.regions@[i]).contains_vpn(vpn)
    }

    /// Physical frame backing page `vpn`.
    pub open spec fn ppn_of(self, vpn: int) -> int {
        let r = self.regions@[self.region_of(vpn)];
        r.frames@[vpn - r.start_vpn] as int
    }

    pub open spec fn perm_of(self, vpn: int) -> usize {
        self.regions@[self.region_of(vpn)].perm
    }

    /// Page `vpn` is mapped and its permissions include every bit of `bit`.
    pub open spec fn page_perm(self, vpn: int, bit: usize) -> bool {
        self.mapped(vpn) && self.perm_of(vpn) & bit == bit
    }

    pub open spec fn page_readable(self, vpn: int) -> bool {
        self.page_perm(vpn, 1)
    }

    pub open spec fn page_writable(self, vpn: int) -> bool {
        self.page_perm(vpn, 2)
    }

    /// Physical byte index that user virtual address `va` resolves to.
    pub open spec fn pa_of(self, va: int) -> int {
        self.ppn_of(va / (PAGE_SIZE as int)) * (PAGE_SIZE as int) + va % (PAGE_SIZE as int)
    }

    /// The byte user virtual address `va` denotes, as seen through this
    /// space's page table.
    pub open spec fn view_byte(self, phys: PhysMem, va: int) -> u8 {
        phys.bytes@[self.pa_of(va)]
    }

    /// Every byte of `[addr, addr + len)` lies on a mapped page whose
    /// permissions include `bit`.
    pub open spec fn range_perm(self, addr: int, len: int, bit: usize) -> bool {
        &&& 0 <= addr
        &&& addr + len <= MAX_VA
        &&& forall|i: int| 0 <= i < len
                ==> self.page_perm(#[trigger] ((addr + i) / (PAGE_SIZE as int)), bit)
    }

    /// Every byte of `[addr, addr + len)` lies on a writable mapped page.
    pub open spec fn range_writable(self, addr: int, len: int) -> bool {
        self.range_perm(addr, len, 2)
    }

    /// Every byte of `[addr, addr + len)` lies on a readable mapped page.
    pub open spec fn range_readable(self, addr: int, len: int) -> bool {
        self.range_perm(addr, len, 1)
    }

    /// The byte sequence `[addr, addr + len)` denotes in this space.
    pub open spec fn read_seq(self, phys: PhysMem, addr: int, len: int) -> Seq<u8> {
        Seq::new(len as nat, |i: int| self.view_byte(phys, addr + i))
    }

    /// Physical byte `pa` backs one of the bytes of `[addr, addr + len)`.
    pub open spec fn pa_in_range(self, addr: int, len: int, pa: int) -> bool {
        exists|i: int| 0 <= i < len && #[trigger] self.pa_of(addr + i) == pa
    }

    /// Find the region containing `vpn`, if any.
    pub fn find_region(&self, vpn: usize) -> (r: Option<usize>)
        requires
            self.regions_disjoint(),
        ensures
            match r {
                Some(i) => i < self.regions@.len() && self.regions@[i as int].contains_vpn(vpn as int)
                    && self.region_of(vpn as int) == i,
                None => !self.mapped(vpn as int),
            },
    {
        let n = self.regions.len();
        for i in 0..n
            invariant
                self.regions_disjoint(),
                n == self.regions@.len(),
                forall|k: int| 0 <= k < i ==> !(#[trigger] self.regions@[k]).contains_vpn(vpn as int),
        {
            let r = &self.regions[i];
            if r.start_vpn <= vpn && vpn - r.start_vpn < r.len_pages {
                proof {
                    self.lemma_region_of_is(i as int, vpn as int);
                }
                return Some(i);
            }
        }
        None
    }

    /// With disjoint regions the containing region is unique, so `region_of`
    /// names exactly the index that contains `vpn`.
    pub proof fn lemma_region_of_is(self, i: int, vpn: int)
        requires
            self.regions_disjoint(),
            0 <= i < self.regions@.len(),
            self.regions@[i].contains_vpn(vpn),
        ensures
            self.mapped(vpn),
            self.region_of(vpn) == i,
    {
        assert(self.mapped(vpn));
        let j = self.region_of(vpn);
        if j != i {
            assert(self.regions@[i].disjoint(self.regions@[j]));
        }
    }

    /// Distinct mapped virtual addresses resolve to distinct physical bytes.
    pub proof fn lemma_pa_injective(self, n_frames: int, va1: int, va2: int)
        requires
            self.wf(n_frames),
            0 <= va1 < MAX_VA,
            0 <= va2 < MAX_VA,
            va1 != va2,
            self.mapped(va1 / (PAGE_SIZE as int)),
            self.mapped(va2 / (PAGE_SIZE as int)),
        ensures
            self.pa_of(va1) != self.pa_of(va2),
    {
        let ps = PAGE_SIZE as int;
        let vpn1 = va1 / ps;
        let vpn2 = va2 / ps;
        let o1 = va1 % ps;
        let o2 = va2 % ps;
        let i1 = self.region_of(vpn1);
        let i2 = self.region_of(vpn2);
        let r1 = self.regions@[i1];
        let r2 = self.regions@[i2];
        let j1 = vpn1 - r1.start_vpn;
        let j2 = vpn2 - r2.start_vpn;
        assert(0 <= i1 < self.regions@.len() && r1.contains_vpn(vpn1));
        assert(0 <= i2 < self.regions@.len() && r2.contains_vpn(vpn2));
        if vpn1 == vpn2 {
            // Same page: the offsets differ.
            assert(o1 != o2) by {
                assert(va1 == ps * vpn1 + o1);
                assert(va2 == ps * vpn2 + o2);
            };
        } else {
            if i1 == i2 && j1 == j2 {
                assert(vpn1 == vpn2);
            }
            assert(r1.frames@[j1] != r2.frames@[j2]);
            let p1 = self.ppn_of(vpn1);
            let p2 = self.ppn_of(vpn2);
            assert(p1 != p2);
            assert(0 <= o1 < ps && 0 <= o2 < ps);
            assert(p1 * ps + o1 != p2 * ps + o2) by (nonlinear_arith)
                requires p1 != p2, 0 <= o1 < ps, 0 <= o2 < ps, ps > 0;
        }
    }

    /// Check that every byte of `[addr, addr + len)` lies on a mapped page
    /// whose permissions include `bit`.
    pub fn check_range(&self, addr: usize, len: usize, bit: usize) -> (ok: bool)
        requires
            self.regions_disjoint(),
        ensures
            ok == self.range_perm(addr as int, len as int, bit),
    {
        if len > MAX_VA || addr > MAX_VA - len {
            return false;
        }
        let mut i: usize = 0;
        while i < len
            invariant
                self.regions_disjoint(),
                addr + len <= MAX_VA,
                0 <= i <= len,
                forall|k: int| 0 <= k < i
                    ==> self.page_perm(#[trigger] ((addr + k) / (PAGE_SIZE as int)), bit),
            decreases len - i,
        {
            let vpn = (addr + i) / PAGE_SIZE;
            match self.find_region(vpn) {
                None => {
                    assert(!self.page_perm((addr + i as int) / (PAGE_SIZE as int), bit));
                    return false;
                },
                Some(ri) => {
                    if self.regions[ri].perm & bit != bit {
                        assert(!self.page_perm((addr + i as int) / (PAGE_SIZE as int), bit));
                        return false;
                    }
                    assert(self.page_perm((addr + i as int) / (PAGE_SIZE as int), bit));
                },
            }
            i += 1;
        }
        true
    }

    /// Resolve a mapped user virtual address to its physical byte index; the
    /// translation primitive every kernel access to user memory goes through.
    pub fn translate_pa(&self, phys: &PhysMem, va: usize) -> (pa: usize)
        requires
            self.wf(phys.n_frames()),
            phys.wf(),
            va < MAX_VA,
            self.mapped(va as int / (PAGE_SIZE as int)),
        ensures
            pa == self.pa_of(va as int),
            pa < phys.bytes@.len(),
    {
        let vpn = va / PAGE_SIZE;
        let ri = match self.find_region(vpn) {
            Some(ri) => ri,
            None => {
                proof {
                    assert(false);
                }
                0
            },
        };
        let r = &self.regions[ri];
        let ppn = r.frames[vpn - r.start_vpn];
        let nbytes = phys.bytes.len();
        proof {
            assert(self.regions@[ri as int].wf(phys.n_frames()));
            assert(ppn < phys.n_frames());
            assert(nbytes as int == phys.n_frames() * (PAGE_SIZE as int)) by {
                let l = nbytes as int;
                let ps = PAGE_SIZE as int;
                assert(l == ps * (l / ps) + l % ps) by (nonlinear_arith)
                    requires ps > 0;
            };
            assert(ppn * (PAGE_SIZE as int) + (PAGE_SIZE as int) <= phys.n_frames() * (PAGE_SIZE as int))
                by (nonlinear_arith)
                requires ppn < phys.n_frames();
            assert(ppn * (PAGE_SIZE as int) + (va as int % (PAGE_SIZE as int)) < nbytes as int);
        }
        ppn * PAGE_SIZE + va % PAGE_SIZE
    }

    /// Write `data` through this space's page table at user address `addr`,
    /// byte by byte, so a record straddling a page boundary lands on the
    /// (possibly non-contiguous) frames that back its two halves.  Returns
    /// false, and changes nothing, unless the whole range is mapped writable.
    pub fn write_user(&self, phys: &mut PhysMem, addr: usize, data: &Vec<u8>) -> (ok: bool)
        requires
            self.wf(old(phys).n_frames()),
            old(phys).wf(),
        ensures
            final(phys).wf(),
            final(phys).bytes@.len() == old(phys).bytes@.len(),
            ok == self.range_writable(addr as int, data@.len() as int),
            !ok ==> *final(phys) == *old(phys),
            ok ==> self.read_seq(*final(phys), addr as int, data@.len() as int) == data@,
            ok ==> forall|pa: int|
                0 <= pa < old(phys).bytes@.len()
                    && !self.pa_in_range(addr as int, data@.len() as int, pa)
                    ==> final(phys).bytes@[pa] == old(phys).bytes@[pa],
    {
        let len = data.len();
        if !self.check_range(addr, len, 2) {
            return false;
        }
        let mut i: usize = 0;
        while i < len
            invariant
                self.wf(phys.n_frames()),
                phys.wf(),
                phys.bytes@.len() == old(phys).bytes@.len(),
                len == data@.len(),
                0 <= i <= len,
                self.range_writable(addr as int, len as int),
                forall|k: int| 0 <= k < i
                    ==> self.view_byte(*phys, addr + k) == data@[k],
                forall|pa: int|
                    0 <= pa < old(phys).bytes@.len()
                        && !self.pa_in_range(addr as int, len as int, pa)
                        ==> phys.bytes@[pa] == old(phys).bytes@[pa],
            decreases len - i,
        {
            let va = addr + i;
            proof {
                assert(self.page_perm((addr + i as int) / (PAGE_SIZE as int), 2));
            }
            let pa = self.translate_pa(phys, va);
            let ghost pre = *phys;
            phys.bytes[pa] = data[i];
            proof {
                assert(self.pa_in_range(addr as int, len as int, pa as int));
                assert forall|k: int| 0 <= k < i implies
                    self.view_byte(*phys, addr + k) == data@[k] by {
                    self.lemma_pa_injective(
                        phys.n_frames(),
                        addr + k,
                        addr + i as int,
                    );
                    assert(self.view_byte(*phys, addr + k) == self.view_byte(pre, addr + k));
                }
                assert(self.view_byte(*phys, addr + i as int) == data@[i as int]);
            }
            i += 1;
        }
        proof {
            assert(self.read_seq(*phys, addr as int, len as int) =~= data@);
        }
        true
    }

    /// Read `len` bytes through this space's page table at user address
    /// `addr`; `None` unless the whole range is mapped readable.
    pub fn read_user(&self, phys: &PhysMem, addr: usize, len: usize) -> (r: Option<Vec<u8>>)
        requires
            self.wf(phys.n_frames()),
            phys.wf(),
        ensures
            match r {
                Some(v) => self.range_readable(addr as int, len as int)
                    && v@ == self.read_seq(*phys, addr as int, len as int),
                None => !self.range_readable(addr as int, len as int),
            },
    {
        if !self.check_range(addr, len, 1) {
            return None;
        }
        let mut out: Vec<u8> = Vec::new();
        let mut i: usize = 0;
        while i < len
            invariant
                self.wf(phys.n_frames()),
                phys.wf(),
                0 <= i <= len,
                self.range_readable(addr as int, len as int),
                out@.len() == i,
                forall|k: int| 0 <= k < i ==> out@[k] == self.view_byte(*phys, addr + k),
            decreases len - i,
        {
            proof {
                assert(self.page_perm((addr + i as int) / (PAGE_SIZE as int), 1));
            }
            let pa = self.translate_pa(phys, addr + i);
            out.push(phys.bytes[pa]);
            i += 1;
        }
        proof {
            assert(out@ =~= self.read_seq(*phys, addr as int, len as int));
        }
        Some(out)
    }

    /// The NUL-terminated byte string starting at user address `addr`, if the
    /// walk stays on readable mapped pages and meets a terminator.
    pub open spec fn cstr_at(self, phys: PhysMem, addr: int) -> Option<Seq<u8>>
        decreases (if addr <= MAX_VA { MAX_VA - addr } else { 0 }),
    {
        if addr < 0 || addr >= MAX_VA {
            None
        } else if !self.page_perm(addr / (PAGE_SIZE as int), 1) {
            None
        } else if self.view_byte(phys, addr) == 0 {
            Some(Seq::empty())
        } else {
            match self.cstr_at(phys, addr + 1) {
                None => None,
                Some(s) => Some(seq![self.view_byte(phys, addr)] + s),
            }
        }
    }

    /// Copy the NUL-terminated string at user address `addr` out of user
    /// memory, walking the page table one page at a time.
    pub fn read_user_cstr(&self, phys: &PhysMem, addr: usize) -> (r: Option<Vec<u8>>)
        requires
            self.wf(phys.n_frames()),
            phys.wf(),
        ensures
            match r {
                Some(v) => self.cstr_at(*phys, addr as int) == Some(v@),
                None => self.cstr_at(*phys, addr as int) is None,
            },
    {
        if addr >= MAX_VA {
            return None;
        }
        let mut out: Vec<u8> = Vec::new();
        let mut cur: usize = addr;
        loop
            invariant
                self.wf(phys.n_frames()),
                phys.wf(),
                addr <= cur <= MAX_VA,
                self.cstr_at(*phys, cur as int) is None
                    ==> self.cstr_at(*phys, addr as int) is None,
                forall|s: Seq<u8>| self.cstr_at(*phys, cur as int) == Some(s)
                    ==> self.cstr_at(*phys, addr as int) == Some(out@ + s),
            decreases MAX_VA - cur,
        {
            if cur >= MAX_VA {
                return None;
            }
            let vpn = cur / PAGE_SIZE;
            let readable = match self.find_region(vpn) {
                None => false,
                Some(ri) => self.regions[ri].perm & 1 == 1,
            };
            if !readable {
                assert(self.cstr_at(*phys, cur as int) is None);
                return None;
            }
            assert(self.page_perm(cur as int / (PAGE_SIZE as int), 1));
            let pa = self.translate_pa(phys, cur);
            let b = phys.bytes[pa];
            if b == 0 {
                assert(self.cstr_at(*phys, cur as int) == Some(Seq::<u8>::empty()));
                assert(out@ + Seq::<u8>::empty() =~= out@);
                return Some(out);
            }
            let ghost prev = out@;
            out.push(b);
            proof {
                assert forall|s: Seq<u8>| self.cstr_at(*phys, cur as int + 1) == Some(s)
                    implies self.cstr_at(*phys, addr as int) == Some(out@ + s) by {
                    assert(self.cstr_at(*phys, cur as int)
                        == Some(seq![self.view_byte(*phys, cur as int)] + s));
                    assert(prev + (seq![b] + s) =~= out@ + s);
                }
            }
            cur += 1;
        }
    }

    /// Number of whole pages covering `len` bytes.
    pub open spec fn round_pages(len: int) -> int {
        (len + PAGE_SIZE - 1) / (PAGE_SIZE as int)
    }

    /// The page range `[lo, hi)` touches the heap segment.
    pub open spec fn range_hits_heap(self, lo: int, hi: int) -> bool {
        lo < hi && self.heap_lo() < self.heap_hi()
            && !(self.heap_hi() <= lo || hi <= self.heap_lo())
    }

    /// A map request is legal: page-aligned start, permission bits a
    /// non-empty subset of {readable, writable, executable}, the rounded
    /// range inside the user address space, and no collision with an
    /// already-mapped region or the heap.
    pub open spec fn mmap_ok(self, start: int, len: int, port: usize) -> bool {
        let lo = start / (PAGE_SIZE as int);
        let hi = lo + Self::round_pages(len);
        &&& start % (PAGE_SIZE as int) == 0
        &&& 1 <= port <= 7
        &&& 0 <= start
        &&& start + Self::round_pages(len) * PAGE_SIZE <= MAX_VA
        &&& forall|i: int| 0 <= i < self.regions@.len()
                ==> !(#[trigger] self.regions@[i]).overlaps_range(lo, hi)
        &&& !self.range_hits_heap(lo, hi)
    }

    /// Map `len` bytes (rounded up to whole pages) at `start` with permission
    /// bits `port`, backing them with freshly allocated zeroed frames.
    /// Returns 0 exactly when the request is legal; on rejection nothing
    /// changes.
    #[verifier::loop_isolation(false)]
    pub fn mmap(&mut self, phys: &mut PhysMem, start: usize, len: usize, port: usize) -> (r: isize)
        requires
            old(self).wf(old(phys).n_frames()),
            old(phys).wf(),
        ensures
            final(phys).wf(),
            final(self).wf(final(phys).n_frames()),
            r == 0 || r == -1,
            r == 0 <==> old(self).mmap_ok(start as int, len as int, port),
            r == -1 ==> *final(self) == *old(self) && *final(phys) == *old(phys),
            final(self).heap_base == old(self).heap_base && final(self).brk == old(self).brk,
            final(phys).bytes@.len() >= old(phys).bytes@.len(),
            final(phys).bytes@.subrange(0, old(phys).bytes@.len() as int) == old(phys).bytes@,
            r == 0 && Self::round_pages(len as int) == 0 ==> *final(self) == *old(self) && *final(phys) == *old(phys),
            r == 0 && Self::round_pages(len as int) > 0 ==> {
                let pages = Self::round_pages(len as int);
                let base = old(phys).n_frames();
                &&& final(self).regions@.len() == old(self).regions@.len() + 1
                &&& final(self).regions@.subrange(0, old(self).regions@.len() as int)
                    == old(self).regions@
                &&& final(self).regions@.last().start_vpn == start as int / (PAGE_SIZE as int)
                &&& final(self).regions@.last().len_pages == pages
                &&& final(self).regions@.last().perm == port
                &&& final(self).regions@.last().frames@.len() == pages
                &&& forall|j: int| 0 <= j < pages
                        ==> final(self).regions@.last().frames@[j] == base + j
                &&& final(phys).bytes@.len() == old(phys).bytes@.len() + pages * PAGE_SIZE
                &&& forall|k: int| old(phys).bytes@.len() <= k < final(phys).bytes@.len()
                        ==> final(phys).bytes@[k] == 0u8
            },
    {
        if start % PAGE_SIZE != 0 || port == 0 || port > 7 {
            return -1;
        }
        if len > MAX_VA {
            proof {
                assert(Self::round_pages(len as int) * PAGE_SIZE >= len) by (nonlinear_arith)
                    requires len > 0;
            }
            return -1;
        }
        let pages = (len + PAGE_SIZE - 1) / PAGE_SIZE;
        let lo = start / PAGE_SIZE;
        if pages > MAX_VPN || lo > MAX_VPN - pages {
            proof {
                assert(start as int == (PAGE_SIZE as int) * (start as int / (PAGE_SIZE as int)));
            }
            return -1;
        }
        let hi = lo + pages;
        proof {
            assert(start as int == (PAGE_SIZE as int) * (lo as int));
            assert(start as int + (pages as int) * PAGE_SIZE <= MAX_VA);
        }
        // reject collisions with mapped regions
        let n = self.regions.len();
        for i in 0..n
            invariant
                *self == *old(self),
                *phys == *old(phys),
                self.wf(phys.n_frames()),
                phys.wf(),
                n == self.regions@.len(),
                lo + pages == hi <= MAX_VPN,
                pages as int == Self::round_pages(len as int),
                lo == start as int / (PAGE_SIZE as int),
                start % PAGE_SIZE == 0,
                1 <= port <= 7,
                start + pages * PAGE_SIZE <= MAX_VA,
                forall|k: int| 0 <= k < i
                    ==> !(#[trigger] self.regions@[k]).overlaps_range(lo as int, hi as int),
        {
            let rg = &self.regions[i];
            proof {
                assert(self.regions@[i as int].wf(phys.n_frames()));
            }
            if lo < hi && !(rg.start_vpn + rg.len_pages <= lo || hi <= rg.start_vpn) {
                return -1;
            }
        }
        // reject collisions with the heap segment
        let hlo = self.heap_base / PAGE_SIZE;
        let hhi = (self.brk + PAGE_SIZE - 1) / PAGE_SIZE;
        if lo < hi && hlo < hhi && !(hhi <= lo || hi <= hlo) {
            return -1;
        }
        if pages == 0 {
            return 0;
        }
        // allocate fresh zeroed frames
        let base = phys.bytes.len() / PAGE_SIZE;
        proof {
            let l = phys.bytes@.len() as int;
            let ps = PAGE_SIZE as int;
            assert(l == ps * (l / ps) + l % ps) by (nonlinear_arith)
                requires ps > 0;
        }
        proof {
            assert(phys.bytes@.len() as int / (PAGE_SIZE as int) <= usize::MAX as int / (PAGE_SIZE as int))
                by (nonlinear_arith)
                requires phys.bytes@.len() <= usize::MAX;
        }
        let mut frames: Vec<usize> = Vec::new();
        let mut j: usize = 0;
        while j < pages
            invariant
                *self == *old(self),
                *phys == *old(phys),
                self.wf(phys.n_frames()),
                phys.wf(),
                0 <= j <= pages,
                pages <= MAX_VPN,
                base <= usize::MAX / PAGE_SIZE,
                base == old(phys).n_frames(),
                frames@.len() == j,
                forall|k: int| 0 <= k < j ==> #[trigger] frames@[k] == base + k,
            decreases pages - j,
        {
            frames.push(base + j);
            j += 1;
        }
        let total = pages * PAGE_SIZE;
        let mut k: usize = 0;
        while k < total
            invariant
                *self == *old(self),
                old(self).wf(old(phys).n_frames()),
                old(phys).wf(),
                0 <= k <= total,
                total == pages * PAGE_SIZE,
                frames@.len() == pages,
                base == old(phys).n_frames(),
                forall|q: int| 0 <= q < pages ==> #[trigger] frames@[q] == base + q,
                phys.bytes@.len() == old(phys).bytes@.len() + k,
                phys.bytes@.subrange(0, old(phys).bytes@.len() as int) == old(phys).bytes@,
                forall|q: int| old(phys).bytes@.len() <= q < phys.bytes@.len()
                    ==> phys.bytes@[q] == 0u8,
            decreases total - k,
        {
            let ghost pre = phys.bytes@;
            phys.bytes.push(0);
            proof {
                assert(phys.bytes@.subrange(0, old(phys).bytes@.len() as int)
                    =~= pre.subrange(0, old(phys).bytes@.len() as int));
            }
            k += 1;
        }
        proof {
            let ps = PAGE_SIZE as int;
            let oldlen = old(phys).bytes@.len() as int;
            let newlen = phys.bytes@.len() as int;
            assert(oldlen == base * ps) by (nonlinear_arith)
                requires oldlen % ps == 0, base == oldlen / ps, ps > 0;
            assert(newlen == (base + pages) * ps) by (nonlinear_arith)
                requires newlen == oldlen + pages * ps, oldlen == base * ps;
            assert(newlen / ps == base + pages && newlen % ps == 0) by (nonlinear_arith)
                requires newlen == (base + pages) * ps, ps > 0, base >= 0, pages >= 0;
        }
        let ghost pre_regions = self.regions@;
        self.regions.push(Region { start_vpn: lo, len_pages: pages, perm: port, frames });
        proof {
            assert(pre_regions =~= self.regions@.subrange(0, pre_regions.len() as int));
            self.lemma_mmap_wf(*old(self), *old(phys), *phys);
        }
        0
    }

    /// After a legal map of fresh frames the space is well formed again.
    proof fn lemma_mmap_wf(self, pre: AddressSpace, pre_phys: PhysMem, post_phys: PhysMem)
        requires
            pre.wf(pre_phys.n_frames()),
            pre_phys.wf(),
            post_phys.wf(),
            self.heap_base == pre.heap_base,
            self.brk == pre.brk,
            self.regions@.len() == pre.regions@.len() + 1,
            self.regions@.subrange(0, pre.regions@.len() as int) == pre.regions@,
            self.regions@.last().wf(post_phys.n_frames()),
            forall|j: int| 0 <= j < self.regions@.last().frames@.len()
                ==> #[trigger] self.regions@.last().frames@[j] >= pre_phys.n_frames(),
            forall|j1: int, j2: int|
                0 <= j1 < self.regions@.last().frames@.len()
                && 0 <= j2 < self.regions@.last().frames@.len() && j1 != j2
                ==> self.regions@.last().frames@[j1] != self.regions@.last().frames@[j2],
            forall|i: int| 0 <= i < pre.regions@.len()
                ==> !(#[trigger] pre.regions@[i]).overlaps_range(
                    self.regions@.last().start_vpn as int,
                    self.regions@.last().start_vpn + self.regions@.last().len_pages,
                ),
            !pre.range_hits_heap(
                self.regions@.last().start_vpn as int,
                self.regions@.last().start_vpn + self.regions@.last().len_pages,
            ),
            pre_phys.n_frames() <= post_phys.n_frames(),
        ensures
            self.wf(post_phys.n_frames()),
    {
        let m = pre.regions@.len() as int;
        assert(forall|i: int| 0 <= i < m ==> self.regions@[i] == pre.regions@[i]);
        assert forall|i: int| 0 <= i < self.regions@.len()
            implies (#[trigger] self.regions@[i]).wf(post_phys.n_frames()) by {
            if i < m {
                assert(pre.regions@[i].wf(pre_phys.n_frames()));
                assert(pre.regions@[i].wf(post_phys.n_frames()));
            }
        }
        let last = self.regions@.last();
        let lo = last.start_vpn as int;
        let hi = lo + last.len_pages;
        assert forall|i: int, j: int|
            0 <= i < self.regions@.len() && 0 <= j < self.regions@.len() && i != j
            implies (#[trigger] self.regions@[i]).disjoint(#[trigger] self.regions@[j]) by {
            if i < m && j < m {
                assert(pre.regions@[i].disjoint(pre.regions@[j]));
            } else if i == m {
                assert(!pre.regions@[j].overlaps_range(lo, hi));
            } else {
                assert(!pre.regions@[i].overlaps_range(lo, hi));
            }
        }
        assert forall|i: int| 0 <= i < self.regions@.len()
            implies !(#[trigger] self.regions@[i]).overlaps_range(self.heap_lo(), self.heap_hi()) by {
            if i < m {
                assert(!pre.regions@[i].overlaps_range(pre.heap_lo(), pre.heap_hi()));
            }
        }
        assert forall|i1: int, j1: int, i2: int, j2: int|
            0 <= i1 < self.regions@.len() && 0 <= j1 < self.regions@[i1].frames@.len()
            && 0 <= i2 < self.regions@.len() && 0 <= j2 < self.regions@[i2].frames@.len()
            && (i1 != i2 || j1 != j2)
            implies self.regions@[i1].frames@[j1] != self.regions@[i2].frames@[j2] by {
            if i1 < m && i2 < m {
                assert(pre.frames_injective());
                assert(pre.regions@[i1].frames@[j1] != pre.regions@[i2].frames@[j2]);
            } else if i1 == m && i2 < m {
                assert(pre.regions@[i2].wf(pre_phys.n_frames()));
                assert(pre.regions@[i2].frames@[j2] < pre_phys.n_frames());
            } else if i2 == m && i1 < m {
                assert(pre.regions@[i1].wf(pre_phys.n_frames()));
                assert(pre.regions@[i1].frames@[j1] < pre_phys.n_frames());
            }
        }
    }

    /// An unmap request is legal: page-aligned start, range inside the user
    /// address space, every page of it mapped, and no mapped region cut in
    /// two by the range boundary (the range is a union of whole regions).
    pub open spec fn munmap_ok(self, start: int, len: int) -> bool {
        let lo = start / (PAGE_SIZE as int);
        let hi = (start + len + PAGE_SIZE - 1) / (PAGE_SIZE as int);
        &&& start % (PAGE_SIZE as int) == 0
        &&& 0 <= start
        &&& start + len <= MAX_VA
        &&& forall|i: int| 0 <= i < self.regions@.len()
                ==> !(#[trigger] self.regions@[i]).overlaps_range(lo, hi)
                    || self.regions@[i].within(lo, hi)
        &&& forall|vpn: int| lo <= vpn < hi ==> self.mapped(vpn)
    }

    /// Unmap every page of `[start, start + len)`.  Returns 0 exactly when
    /// the request is legal; on rejection nothing changes.
    #[verifier::loop_isolation(false)]
    pub fn munmap(&mut self, phys: &PhysMem, start: usize, len: usize) -> (r: isize)
        requires
            old(self).wf(phys.n_frames()),
            phys.wf(),
        ensures
            final(self).wf(phys.n_frames()),
            r == 0 || r == -1,
            r == 0 <==> old(self).munmap_ok(start as int, len as int),
            r == -1 ==> *final(self) == *old(self),
            final(self).heap_base == old(self).heap_base && final(self).brk == old(self).brk,
            r == 0 ==> final(self).regions@ == remove_range(
                old(self).regions@,
                start as int / (PAGE_SIZE as int),
                (start + len + PAGE_SIZE - 1) as int / (PAGE_SIZE as int),
            ),
    {
        if start % PAGE_SIZE != 0 {
            return -1;
        }
        if len > MAX_VA || start > MAX_VA - len {
            return -1;
        }
        let lo = start / PAGE_SIZE;
        let hi = (start + len + PAGE_SIZE - 1) / PAGE_SIZE;
        // no region may straddle the range boundary
        let n = self.regions.len();
        for i in 0..n
            invariant
                *self == *old(self),
                forall|k: int| 0 <= k < i
                    ==> !(#[trigger] self.regions@[k]).overlaps_range(lo as int, hi as int)
                        || self.regions@[k].within(lo as int, hi as int),
        {
            let rg = &self.regions[i];
            proof {
                assert(self.regions@[i as int].wf(phys.n_frames()));
            }
            let overlaps = lo < hi && !(rg.start_vpn + rg.len_pages <= lo || hi <= rg.start_vpn);
            let inside = lo <= rg.start_vpn && rg.start_vpn + rg.len_pages <= hi;
            if overlaps && !inside {
                return -1;
            }
        }
        // every page of the range must be mapped
        let mut vpn = lo;
        while vpn < hi
            invariant
                *self == *old(self),
                lo <= vpn,
                vpn <= hi || vpn == lo,
                forall|k: int| lo <= k < vpn ==> self.mapped(k),
            decreases hi - vpn,
        {
            if self.find_region(vpn).is_none() {
                return -1;
            }
            vpn += 1;
        }
        // drop every region inside the range
        let ghost orig = self.regions@;
        let ghost processed: int = 0;
        let mut i: usize = 0;
        while i < self.regions.len()
            invariant
                0 <= processed <= orig.len(),
                i as int == remove_range(orig.take(processed), lo as int, hi as int).len(),
                self.regions@ =~= remove_range(orig.take(processed), lo as int, hi as int)
                    + orig.skip(processed),
                self.heap_base == old(self).heap_base,
                self.brk == old(self).brk,
            decreases self.regions@.len() - i,
        {
            proof {
                assert(processed < orig.len());
                assert(self.regions@[i as int] == orig[processed]);
                assert(orig.take(processed + 1).drop_last() =~= orig.take(processed));
                assert(orig.take(processed + 1).last() == orig[processed]);
            }
            let rg = &self.regions[i];
            let inside = lo <= rg.start_vpn && rg.start_vpn + rg.len_pages <= hi;
            if inside {
                let ghost pre = self.regions@;
                let _dropped = self.regions.remove(i);
                proof {
                    assert(self.regions@ =~= remove_range(orig.take(processed + 1), lo as int, hi as int)
                        + orig.skip(processed + 1)) by {
                        assert(pre.remove(i as int)
                            =~= pre.take(i as int) + pre.skip(i as int + 1));
                        assert(orig.skip(processed) =~= seq![orig[processed]] + orig.skip(processed + 1));
                    };
                }
                proof { processed = processed + 1; }
            } else {
                proof {
                    assert(orig.skip(processed) =~= seq![orig[processed]] + orig.skip(processed + 1));
                    assert(remove_range(orig.take(processed + 1), lo as int, hi as int)
                        =~= remove_range(orig.take(processed), lo as int, hi as int)
                            .push(orig[processed]));
                }
                i += 1;
                proof { processed = processed + 1; }
            }
        }
        proof {
            assert(processed == orig.len());
            assert(orig.take(processed) =~= orig);
            assert(orig.skip(processed) =~= Seq::<Region>::empty());
            assert(self.regions@ =~= remove_range(orig, lo as int, hi as int));
            lemma_remove_range_wf(*old(self), *self, lo as int, hi as int, phys.n_frames());
        }
        0
    }

    /// A break change is legal when the new break stays within
    /// `[heap_base, MAX_VA]` and the grown heap hits no mapped region.
    pub open spec fn sbrk_ok(self, delta: int) -> bool {
        let nb = self.brk + delta;
        let nhi = (nb + PAGE_SIZE - 1) / (PAGE_SIZE as int);
        &&& self.heap_base <= nb <= MAX_VA
        &&& forall|i: int| 0 <= i < self.regions@.len()
                ==> !((#[trigger] self.regions@[i]).overlaps_range(self.heap_lo(), nhi))
    }

    /// Grow or shrink the program break by `delta` bytes; returns the break
    /// before the change, or -1 (changing nothing) if the new break would be
    /// invalid.
    #[verifier::loop_isolation(false)]
    pub fn sbrk(&mut self, phys: &PhysMem, delta: i32) -> (r: isize)
        requires
            old(self).wf(phys.n_frames()),
            phys.wf(),
        ensures
            final(self).wf(phys.n_frames()),
            r == -1 <==> !old(self).sbrk_ok(delta as int),
            r == -1 ==> *final(self) == *old(self),
            r != -1 ==> r == old(self).brk as isize
                && final(self).brk == old(self).brk + delta
                && final(self).heap_base == old(self).heap_base
                && final(self).regions@ == old(self).regions@,
    {
        let b: i64 = self.brk as i64;
        let nb: i64 = b + delta as i64;
        if nb < self.heap_base as i64 || nb > MAX_VA as i64 {
            return -1;
        }
        let new_brk: usize = nb as usize;
        let hlo = self.heap_base / PAGE_SIZE;
        let nhi = (new_brk + PAGE_SIZE - 1) / PAGE_SIZE;
        let n = self.regions.len();
        for i in 0..n
            invariant
                n == self.regions@.len(),
                hlo == self.heap_lo(),
                new_brk == old(self).brk + delta,
                nhi == (new_brk + PAGE_SIZE - 1) as int / (PAGE_SIZE as int),
                *self == *old(self),
                self.wf(phys.n_frames()),
                forall|k: int| 0 <= k < i
                    ==> !(#[trigger] self.regions@[k]).overlaps_range(hlo as int, nhi as int),
        {
            let rg = &self.regions[i];
            proof {
                assert(self.regions@[i as int].wf(phys.n_frames()));
            }
            if hlo < nhi && !(rg.start_vpn + rg.len_pages <= hlo || nhi <= rg.start_vpn) {
                return -1;
            }
        }
        let old_brk = self.brk;
        self.brk = new_brk;
        old_brk as isize
    }

    /// A space that is well formed for a small physical memory stays well
    /// formed when frames are added.
    pub proof fn lemma_wf_monotone(self, n1: int, n2: int)
        requires
            self.wf(n1),
            n1 <= n2,
        ensures
            self.wf(n2),
    {
        assert forall|i: int| 0 <= i < self.regions@.len() implies (#[trigger] self.regions@[i]).wf(n2) by {
            assert(self.regions@[i].wf(n1));
        }
    }
}

/// Frame `dst` of `phys` holds the same bytes frame `src` held in `snap`.
pub open spec fn page_copied(phys: PhysMem, snap: PhysMem, dst: int, src: int) -> bool {
    forall|o: int| 0 <= o < PAGE_SIZE
        ==> #[trigger] phys.bytes@[dst * (PAGE_SIZE as int) + o]
            == snap.bytes@[src * (PAGE_SIZE as int) + o]
}

/// Allocate one fresh frame holding a byte-for-byte copy of frame `src_ppn`.
#[verifier::loop_isolation(false)]
pub fn copy_frame(phys: &mut PhysMem, src_ppn: usize) -> (f: usize)
    requires
        old(phys).wf(),
        src_ppn < old(phys).n_frames(),
    ensures
        final(phys).wf(),
        f == old(phys).n_frames(),
        final(phys).n_frames() == old(phys).n_frames() + 1,
        final(phys).bytes@.len() == old(phys).bytes@.len() + PAGE_SIZE,
        final(phys).bytes@.subrange(0, old(phys).bytes@.len() as int) == old(phys).bytes@,
        page_copied(*final(phys), *old(phys), f as int, src_ppn as int),
{
    let ghost ps = PAGE_SIZE as int;
    let base = phys.bytes.len();
    let f = base / PAGE_SIZE;
    proof {
        let l = base as int;
        let nf = old(phys).n_frames();
        assert(l == ps * (l / ps) + l % ps) by (nonlinear_arith)
            requires ps > 0;
        assert(nf * ps == l) by (nonlinear_arith)
            requires nf == l / ps, l % ps == 0, ps > 0;
        assert(src_ppn * ps + ps <= nf * ps) by (nonlinear_arith)
            requires src_ppn < nf, ps > 0, src_ppn >= 0;
    }
    let mut o: usize = 0;
    while o < PAGE_SIZE
        invariant
            0 <= o <= PAGE_SIZE,
            phys.bytes@.len() == base + o,
            phys.bytes@.subrange(0, base as int) == old(phys).bytes@,
            forall|q: int| 0 <= q < o
                ==> #[trigger] phys.bytes@[base + q]
                    == old(phys).bytes@[src_ppn as int * (PAGE_SIZE as int) + q],
        decreases PAGE_SIZE - o,
    {
        let b = phys.bytes[src_ppn * PAGE_SIZE + o];
        let ghost pre = phys.bytes@;
        phys.bytes.push(b);
        proof {
            assert(phys.bytes@.subrange(0, base as int) =~= pre.subrange(0, base as int));
        }
        o += 1;
    }
    proof {
        let l = base as int;
        assert(l == f as int * ps) by (nonlinear_arith)
            requires f == l / ps, l % ps == 0, ps > 0;
        assert((l + ps) % ps == 0 && (l + ps) / ps == f + 1) by (nonlinear_arith)
            requires l == f as int * ps, ps > 0, f >= 0;
        assert forall|q: int| 0 <= q < PAGE_SIZE
            implies #[trigger] phys.bytes@[f as int * ps + q]
                == old(phys).bytes@[src_ppn as int * ps + q] by {
            assert(phys.bytes@[base + q] == old(phys).bytes@[src_ppn as int * ps + q]);
        }
    }
    f
}

impl AddressSpace {
    /// Duplicate this space for `fork`: the same region layout, permissions
    /// and heap bounds, every page backed by a freshly allocated frame that
    /// holds an independent byte-for-byte copy -- no sharing, and no change
    /// to any previously allocated frame.
    #[verifier::loop_isolation(false)]
    pub fn duplicate(&self, phys: &mut PhysMem) -> (dst: AddressSpace)
        requires
            self.wf(old(phys).n_frames()),
            old(phys).wf(),
        ensures
            final(phys).wf(),
            final(phys).bytes@.len() >= old(phys).bytes@.len(),
            final(phys).bytes@.subrange(0, old(phys).bytes@.len() as int) == old(phys).bytes@,
            dst.wf(final(phys).n_frames()),
            dst.heap_base == self.heap_base,
            dst.brk == self.brk,
            dst.regions@.len() == self.regions@.len(),
            forall|k: int| 0 <= k < self.regions@.len()
                ==> (#[trigger] dst.regions@[k]).start_vpn == self.regions@[k].start_vpn
                    && dst.regions@[k].len_pages == self.regions@[k].len_pages
                    && dst.regions@[k].perm == self.regions@[k].perm,
            forall|k: int, j: int|
                0 <= k < dst.regions@.len() && 0 <= j < dst.regions@[k].frames@.len()
                    ==> #[trigger] dst.regions@[k].frames@[j] >= old(phys).n_frames(),
            forall|vpn: int| dst.mapped(vpn) <==> self.mapped(vpn),
            forall|va: int| 0 <= va < MAX_VA && self.mapped(va / (PAGE_SIZE as int))
                ==> dst.view_byte(*final(phys), va) == self.view_byte(*old(phys), va),
    {
        let ghost ps = PAGE_SIZE as int;
        let ghost base_n = old(phys).n_frames();
        let mut out: Vec<Region> = Vec::new();
        let n = self.regions.len();
        let mut i: usize = 0;
        while i < n
            invariant
                0 <= i <= n,
                phys.wf(),
                phys.n_frames() >= base_n,
                phys.bytes@.len() >= old(phys).bytes@.len(),
                phys.bytes@.subrange(0, old(phys).bytes@.len() as int) == old(phys).bytes@,
                out@.len() == i,
                forall|k: int| 0 <= k < i
                    ==> (#[trigger] out@[k]).start_vpn == self.regions@[k].start_vpn
                        && out@[k].len_pages == self.regions@[k].len_pages
                        && out@[k].perm == self.regions@[k].perm
                        && out@[k].frames@.len() == out@[k].len_pages,
                forall|k: int, j: int|
                    0 <= k < i && 0 <= j < out@[k].frames@.len()
                        ==> base_n <= #[trigger] out@[k].frames@[j] < phys.n_frames(),
                forall|k1: int, j1: int, k2: int, j2: int|
                    0 <= k1 < i && 0 <= j1 < out@[k1].frames@.len()
                    && 0 <= k2 < i && 0 <= j2 < out@[k2].frames@.len()
                    && (k1 != k2 || j1 != j2)
                        ==> #[trigger] out@[k1].frames@[j1] != #[trigger] out@[k2].frames@[j2],
                forall|k: int, j: int|
                    0 <= k < i && 0 <= j < out@[k].frames@.len()
                        ==> page_copied(*phys, *old(phys),
                            #[trigger] out@[k].frames@[j] as int,
                            self.regions@[k].frames@[j] as int),
            decreases n - i,
        {
            proof {
                assert(self.regions@[i as int].wf(base_n));
            }
            let r = &self.regions[i];
            let pages = r.len_pages;
            let mut frames: Vec<usize> = Vec::new();
            let ghost entry_n = phys.n_frames();
            let ghost entry_phys = *phys;
            let mut j: usize = 0;
            while j < pages
                invariant
                    0 <= j <= pages,
                    frames@.len() == j,
                    phys.wf(),
                    phys.n_frames() >= entry_n >= base_n,
                    phys.bytes@.len() >= entry_phys.bytes@.len() >= old(phys).bytes@.len(),
                    phys.bytes@.subrange(0, old(phys).bytes@.len() as int) == old(phys).bytes@,
                    forall|q: int| 0 <= q < j
                        ==> entry_n <= #[trigger] frames@[q] < phys.n_frames(),
                    forall|q1: int, q2: int| 0 <= q1 < j && 0 <= q2 < j && q1 != q2
                        ==> frames@[q1] != frames@[q2],
                    forall|q: int| 0 <= q < j
                        ==> page_copied(*phys, *old(phys),
                            #[trigger] frames@[q] as int,
                            self.regions@[i as int].frames@[q] as int),
                    forall|k: int, jj: int|
                        0 <= k < i && 0 <= jj < out@[k].frames@.len()
                            ==> base_n <= #[trigger] out@[k].frames@[jj] < entry_n,
                    forall|k: int, jj: int|
                        0 <= k < i && 0 <= jj < out@[k].frames@.len()
                            ==> page_copied(*phys, *old(phys),
                                #[trigger] out@[k].frames@[jj] as int,
                                self.regions@[k].frames@[jj] as int),
                decreases pages - j,
            {
                let src_ppn = r.frames[j];
                proof {
                    assert(src_ppn < base_n);
                }
                let ghost pre_phys = *phys;
                let f = copy_frame(phys, src_ppn);
                proof {
                    // earlier copies and prefix facts survive the append
                    assert(phys.bytes@.subrange(0, old(phys).bytes@.len() as int)
                        =~= pre_phys.bytes@.subrange(0, old(phys).bytes@.len() as int));
                    assert forall|q: int| 0 <= q < j implies
                        page_copied(*phys, *old(phys), #[trigger] frames@[q] as int,
                            self.regions@[i as int].frames@[q] as int) by {
                        lemma_page_copied_stable(*phys, pre_phys, *old(phys),
                            frames@[q] as int, self.regions@[i as int].frames@[q] as int);
                    }
                    assert forall|k: int, jj: int|
                        0 <= k < i && 0 <= jj < out@[k].frames@.len() implies
                        page_copied(*phys, *old(phys), #[trigger] out@[k].frames@[jj] as int,
                            self.regions@[k].frames@[jj] as int) by {
                        lemma_page_copied_stable(*phys, pre_phys, *old(phys),
                            out@[k].frames@[jj] as int, self.regions@[k].frames@[jj] as int);
                    }
                    assert(page_copied(*phys, pre_phys, f as int, src_ppn as int));
                    lemma_page_copied_src_stable(*phys, pre_phys, *old(phys),
                        f as int, src_ppn as int);
                }
                frames.push(f);
                j += 1;
            }
            out.push(Region {
                start_vpn: r.start_vpn,
                len_pages: r.len_pages,
                perm: r.perm,
                frames,
            });
            i += 1;
        }
        let dst = AddressSpace { regions: out, heap_base: self.heap_base, brk: self.brk };
        proof {
            self.lemma_duplicate_post(dst, *old(phys), *phys, base_n);
        }
        dst
    }

    /// Putting together the loop facts of `duplicate`: the copy is well
    /// formed, maps the same pages, and shows the same bytes.
    proof fn lemma_duplicate_post(
        self,
        dst: AddressSpace,
        pre_phys: PhysMem,
        post_phys: PhysMem,
        base_n: int,
    )
        requires
            self.wf(base_n),
            pre_phys.wf(),
            post_phys.wf(),
            base_n == pre_phys.n_frames(),
            post_phys.n_frames() >= base_n,
            dst.heap_base == self.heap_base,
            dst.brk == self.brk,
            dst.regions@.len() == self.regions@.len(),
            forall|k: int| 0 <= k < dst.regions@.len()
                ==> (#[trigger] dst.regions@[k]).start_vpn == self.regions@[k].start_vpn
                    && dst.regions@[k].len_pages == self.regions@[k].len_pages
                    && dst.regions@[k].perm == self.regions@[k].perm
                    && dst.regions@[k].frames@.len() == dst.regions@[k].len_pages,
            forall|k: int, j: int|
                0 <= k < dst.regions@.len() && 0 <= j < dst.regions@[k].frames@.len()
                    ==> base_n <= #[trigger] dst.regions@[k].frames@[j] < post_phys.n_frames(),
            forall|k1: int, j1: int, k2: int, j2: int|
                0 <= k1 < dst.regions@.len() && 0 <= j1 < dst.regions@[k1].frames@.len()
                && 0 <= k2 < dst.regions@.len() && 0 <= j2 < dst.regions@[k2].frames@.len()
                && (k1 != k2 || j1 != j2)
                    ==> #[trigger] dst.regions@[k1].frames@[j1]
                        != #[trigger] dst.regions@[k2].frames@[j2],
            forall|k: int, j: int|
                0 <= k < dst.regions@.len() && 0 <= j < dst.regions@[k].frames@.len()
                    ==> page_copied(post_phys, pre_phys,
                        #[trigger] dst.regions@[k].frames@[j] as int,
                        self.regions@[k].frames@[j] as int),
        ensures
            dst.wf(post_phys.n_frames()),
            forall|vpn: int| dst.mapped(vpn) <==> self.mapped(vpn),
            forall|va: int| 0 <= va < MAX_VA && self.mapped(va / (PAGE_SIZE as int))
                ==> dst.view_byte(post_phys, va) == self.view_byte(pre_phys, va),
    {
        let ps = PAGE_SIZE as int;
        assert forall|k: int| 0 <= k < dst.regions@.len()
            implies (#[trigger] dst.regions@[k]).wf(post_phys.n_frames()) by {
            assert(self.regions@[k].wf(base_n));
        }
        assert forall|k1: int, k2: int|
            0 <= k1 < dst.regions@.len() && 0 <= k2 < dst.regions@.len() && k1 != k2
            implies (#[trigger] dst.regions@[k1]).disjoint(#[trigger] dst.regions@[k2]) by {
            assert(self.regions@[k1].disjoint(self.regions@[k2]));
        }
        assert forall|k: int| 0 <= k < dst.regions@.len()
            implies !(#[trigger] dst.regions@[k]).overlaps_range(dst.heap_lo(), dst.heap_hi()) by {
            assert(!self.regions@[k].overlaps_range(self.heap_lo(), self.heap_hi()));
        }
        assert forall|vpn: int| dst.mapped(vpn) <==> self.mapped(vpn) by {
            if dst.mapped(vpn) {
                let k = choose|k: int| 0 <= k < dst.regions@.len()
                    && (#[trigger] dst.regions@[k]).contains_vpn(vpn);
                assert(self.regions@[k].contains_vpn(vpn));
                assert(self.mapped(vpn));
            }
            if self.mapped(vpn) {
                let k = choose|k: int| 0 <= k < self.regions@.len()
                    && (#[trigger] self.regions@[k]).contains_vpn(vpn);
                assert(dst.regions@[k].contains_vpn(vpn));
                assert(dst.mapped(vpn));
            }
        }
        assert forall|va: int| 0 <= va < MAX_VA && self.mapped(va / ps)
            implies dst.view_byte(post_phys, va) == self.view_byte(pre_phys, va) by {
            let vpn = va / ps;
            let o = va % ps;
            let k = self.region_of(vpn);
            assert(0 <= k < self.regions@.len() && self.regions@[k].contains_vpn(vpn));
            self.lemma_region_of_is(k, vpn);
            assert(dst.regions@[k].contains_vpn(vpn));
            dst.lemma_region_of_is(k, vpn);
            let j = vpn - dst.regions@[k].start_vpn;
            assert(page_copied(post_phys, pre_phys,
                dst.regions@[k].frames@[j] as int, self.regions@[k].frames@[j] as int));
            assert(post_phys.bytes@[dst.regions@[k].frames@[j] as int * ps + o]
                == pre_phys.bytes@[self.regions@[k].frames@[j] as int * ps + o]);
        }
    }
}

/// A page copy keeps holding once more bytes are appended to physical
/// memory, because the destination frame lies below the old length.
proof fn lemma_page_copied_stable(
    post: PhysMem,
    mid: PhysMem,
    snap: PhysMem,
    dst: int,
    src: int,
)
    requires
        page_copied(mid, snap, dst, src),
        0 <= dst,
        (dst + 1) * (PAGE_SIZE as int) <= mid.bytes@.len(),
        post.bytes@.len() >= mid.bytes@.len(),
        post.bytes@.subrange(0, mid.bytes@.len() as int) == mid.bytes@,
    ensures
        page_copied(post, snap, dst, src),
{
    let ps = PAGE_SIZE as int;
    assert forall|o: int| 0 <= o < PAGE_SIZE
        implies #[trigger] post.bytes@[dst * ps + o] == snap.bytes@[src * ps + o] by {
        let idx = dst * ps + o;
        assert(0 <= idx < mid.bytes@.len());
        assert(mid.bytes@[idx] == snap.bytes@[src * ps + o]);
        assert(post.bytes@.subrange(0, mid.bytes@.len() as int)[idx] == post.bytes@[idx]);
        assert(post.bytes@[idx] == mid.bytes@[idx]);
    }
}

/// A copy taken against the current memory is also a copy against the
/// original snapshot, when the source frame is old and untouched.
proof fn lemma_page_copied_src_stable(
    post: PhysMem,
    mid: PhysMem,
    snap: PhysMem,
    dst: int,
    src: int,
)
    requires
        page_copied(post, mid, dst, src),
        0 <= src,
        (src + 1) * (PAGE_SIZE as int) <= snap.bytes@.len(),
        mid.bytes@.len() >= snap.bytes@.len(),
        mid.bytes@.subrange(0, snap.bytes@.len() as int) == snap.bytes@,
    ensures
        page_copied(post, snap, dst, src),
{
    let ps = PAGE_SIZE as int;
    assert forall|o: int| 0 <= o < PAGE_SIZE
        implies #[trigger] post.bytes@[dst * ps + o] == snap.bytes@[src * ps + o] by {
        assert(src * ps + o < snap.bytes@.len());
        assert(mid.bytes@.subrange(0, snap.bytes@.len() as int)[src * ps + o]
            == snap.bytes@[src * ps + o]);
    }
}

/// What a successful `mmap` leaves behind: heap untouched, old frames
/// byte-for-byte intact, and (for a non-empty request) one new region of
/// fresh, zeroed, consecutively numbered frames appended to the region set.
pub open spec fn mmap_post(
    pre: AddressSpace,
    post: AddressSpace,
    pre_phys: PhysMem,
    post_phys: PhysMem,
    start: int,
    len: int,
    port: usize,
) -> bool {
    let pages = AddressSpace::round_pages(len);
    let base = pre_phys.n_frames();
    &&& post.heap_base == pre.heap_base && post.brk == pre.brk
    &&& post_phys.bytes@.subrange(0, pre_phys.bytes@.len() as int) == pre_phys.bytes@
    &&& (pages == 0 ==> post == pre && post_phys == pre_phys)
    &&& (pages > 0 ==> {
        &&& post.regions@.len() == pre.regions@.len() + 1
        &&& post.regions@.subrange(0, pre.regions@.len() as int) == pre.regions@
        &&& post.regions@.last().start_vpn == start / (PAGE_SIZE as int)
        &&& post.regions@.last().len_pages == pages
        &&& post.regions@.last().perm == port
        &&& post.regions@.last().frames@.len() == pages
        &&& forall|j: int| 0 <= j < pages
                ==> #[trigger] post.regions@.last().frames@[j] == base + j
        &&& post_phys.bytes@.len() == pre_phys.bytes@.len() + pages * PAGE_SIZE
        &&& forall|k: int| pre_phys.bytes@.len() <= k < post_phys.bytes@.len()
                ==> post_phys.bytes@[k] == 0u8
    })
}

/// The region sequence with every region lying inside the page range
/// `[lo, hi)` dropped; order of the survivors is kept.
pub open spec fn remove_range(s: Seq<Region>, lo: int, hi: int) -> Seq<Region>
    decreases s.len(),
{
    if s.len() == 0 {
        s
    } else {
        let init = remove_range(s.drop_last(), lo, hi);
        if s.last().within(lo, hi) {
            init
        } else {
            init.push(s.last())
        }
    }
}

pub proof fn lemma_remove_range_len(s: Seq<Region>, lo: int, hi: int)
    ensures
        remove_range(s, lo, hi).len() <= s.len(),
    decreases s.len(),
{
    if s.len() > 0 {
        lemma_remove_range_len(s.drop_last(), lo, hi);
    }
}

/// Every survivor of `remove_range` is an element of the original sequence.
pub proof fn lemma_remove_range_elems(s: Seq<Region>, lo: int, hi: int)
    ensures
        forall|a: int| 0 <= a < remove_range(s, lo, hi).len()
            ==> exists|b: int| 0 <= b < s.len() && #[trigger] remove_range(s, lo, hi)[a] == s[b],
    decreases s.len(),
{
    if s.len() > 0 {
        let init = s.drop_last();
        lemma_remove_range_elems(init, lo, hi);
        let res = remove_range(s, lo, hi);
        assert forall|a: int| 0 <= a < res.len()
            implies exists|b: int| 0 <= b < s.len() && #[trigger] res[a] == s[b] by {
            if a < remove_range(init, lo, hi).len() {
                let b = choose|b: int| 0 <= b < init.len() && remove_range(init, lo, hi)[a] == init[b];
                assert(res[a] == s[b]);
            } else {
                assert(res[a] == s[s.len() - 1]);
            }
        }
    }
}

/// If no region of `s` lies inside `[lo, hi)`, `remove_range` is a no-op.
pub proof fn lemma_remove_range_noop(s: Seq<Region>, lo: int, hi: int)
    requires
        forall|i: int| 0 <= i < s.len() ==> !(#[trigger] s[i]).within(lo, hi),
    ensures
        remove_range(s, lo, hi) == s,
    decreases s.len(),
{
    if s.len() > 0 {
        lemma_remove_range_noop(s.drop_last(), lo, hi);
        assert(remove_range(s, lo, hi) =~= s);
    }
}

/// Unmapping whole regions preserves every part of address-space
/// well-formedness.
pub proof fn lemma_remove_range_wf(pre: AddressSpace, post: AddressSpace, lo: int, hi: int, n: int)
    requires
        pre.wf(n),
        post.regions@ == remove_range(pre.regions@, lo, hi),
        post.heap_base == pre.heap_base,
        post.brk == pre.brk,
    ensures
        post.wf(n),
    decreases pre.regions@.len(),
{
    let s = pre.regions@;
    let res = post.regions@;
    lemma_remove_range_elems(s, lo, hi);
    assert forall|i: int| 0 <= i < res.len() implies (#[trigger] res[i]).wf(n) by {
        let b = choose|b: int| 0 <= b < s.len() && res[i] == s[b];
        assert(s[b].wf(n));
    }
    assert forall|i: int| 0 <= i < res.len()
        implies !(#[trigger] res[i]).overlaps_range(post.heap_lo(), post.heap_hi()) by {
        let b = choose|b: int| 0 <= b < s.len() && res[i] == s[b];
        assert(!s[b].overlaps_range(pre.heap_lo(), pre.heap_hi()));
    }
    lemma_remove_range_pairs(s, lo, hi, n);
}

/// The pairwise clauses (disjointness, frame injectivity) survive
/// `remove_range`, by induction over the sequence.
proof fn lemma_remove_range_pairs(s: Seq<Region>, lo: int, hi: int, n: int)
    requires
        forall|i: int, j: int| 0 <= i < s.len() && 0 <= j < s.len() && i != j
            ==> (#[trigger] s[i]).disjoint(#[trigger] s[j]),
        forall|i1: int, j1: int, i2: int, j2: int|
            0 <= i1 < s.len() && 0 <= j1 < s[i1].frames@.len()
            && 0 <= i2 < s.len() && 0 <= j2 < s[i2].frames@.len()
            && (i1 != i2 || j1 != j2)
                ==> #[trigger] s[i1].frames@[j1] != #[trigger] s[i2].frames@[j2],
        forall|i: int| 0 <= i < s.len() ==> 0 < (#[trigger] s[i]).len_pages,
    ensures
        forall|i: int, j: int|
            0 <= i < remove_range(s, lo, hi).len() && 0 <= j < remove_range(s, lo, hi).len() && i != j
                ==> (#[trigger] remove_range(s, lo, hi)[i]).disjoint(
                    #[trigger] remove_range(s, lo, hi)[j]),
        forall|i1: int, j1: int, i2: int, j2: int|
            0 <= i1 < remove_range(s, lo, hi).len()
            && 0 <= j1 < remove_range(s, lo, hi)[i1].frames@.len()
            && 0 <= i2 < remove_range(s, lo, hi).len()
            && 0 <= j2 < remove_range(s, lo, hi)[i2].frames@.len()
            && (i1 != i2 || j1 != j2)
                ==> #[trigger] remove_range(s, lo, hi)[i1].frames@[j1]
                    != #[trigger] remove_range(s, lo, hi)[i2].frames@[j2],
    decreases s.len(),
{
    if s.len() > 0 {
        let init = s.drop_last();
        let last = s.last();
        lemma_remove_range_pairs(init, lo, hi, n);
        lemma_remove_range_elems(init, lo, hi);
        let res = remove_range(s, lo, hi);
        let rin = remove_range(init, lo, hi);
        if !last.within(lo, hi) {
            // res == rin.push(last): check the new pairs against each survivor
            assert forall|i: int, j: int|
                0 <= i < res.len() && 0 <= j < res.len() && i != j
                implies (#[trigger] res[i]).disjoint(#[trigger] res[j]) by {
                if i < rin.len() && j < rin.len() {
                    assert(rin[i].disjoint(rin[j]));
                } else if j == rin.len() && i < rin.len() {
                    let b = choose|b: int| 0 <= b < init.len() && rin[i] == init[b];
                    assert(s[b].disjoint(s[s.len() - 1]));
                } else if i == rin.len() && j < rin.len() {
                    let b = choose|b: int| 0 <= b < init.len() && rin[j] == init[b];
                    assert(s[s.len() - 1].disjoint(s[b]));
                } else {
                    // i == j == rin.len() is impossible since i != j, but if a
                    // region were paired with itself it would not be disjoint:
                    // a non-empty region always overlaps itself.
                    assert(i != j);
                    assert(false);
                }
            }
            assert forall|i1: int, j1: int, i2: int, j2: int|
                0 <= i1 < res.len() && 0 <= j1 < res[i1].frames@.len()
                && 0 <= i2 < res.len() && 0 <= j2 < res[i2].frames@.len()
                && (i1 != i2 || j1 != j2)
                implies #[trigger] res[i1].frames@[j1] != #[trigger] res[i2].frames@[j2] by {
                if i1 < rin.len() && i2 < rin.len() {
                    assert(rin[i1].frames@[j1] != rin[i2].frames@[j2]);
                } else if i1 == rin.len() && i2 < rin.len() {
                    let b = choose|b: int| 0 <= b < init.len() && rin[i2] == init[b];
                    assert(s[s.len() - 1].frames@[j1] != s[b].frames@[j2]);
                } else if i2 == rin.len() && i1 < rin.len() {
                    let b = choose|b: int| 0 <= b < init.len() && rin[i1] == init[b];
                    assert(s[b].frames@[j1] != s[s.len() - 1].frames@[j2]);
                } else {
                    assert(s[s.len() - 1].frames@[j1] != s[s.len() - 1].frames@[j2]);
                }
            }
        }
    }
}

/// Law: for a page-aligned start, legal non-empty permission bits, and a
/// positive length whose rounded range is free, a successful `mmap` followed
/// by `munmap` of the identical `start, len` succeeds and leaves the region
/// set exactly as it was before the `mmap`.
pub proof fn lemma_mmap_munmap_round_trip(
    pre: AddressSpace,
    mid: AddressSpace,
    start: int,
    len: int,
    port: usize,
    n: int,
)
    requires
        pre.wf(n),
        pre.mmap_ok(start, len, port),
        len > 0,
        // what mmap's success contract says about the space it leaves behind
        mid.heap_base == pre.heap_base,
        mid.brk == pre.brk,
        mid.regions@.len() == pre.regions@.len() + 1,
        mid.regions@.subrange(0, pre.regions@.len() as int) == pre.regions@,
        mid.regions@.last().start_vpn == start / (PAGE_SIZE as int),
        mid.regions@.last().len_pages == AddressSpace::round_pages(len),
        mid.regions@.last().perm == port,
    ensures
        mid.munmap_ok(start, len),
        remove_range(
            mid.regions@,
            start / (PAGE_SIZE as int),
            (start + len + PAGE_SIZE - 1) / (PAGE_SIZE as int),
        ) == pre.regions@,
{
    let ps = PAGE_SIZE as int;
    let lo = start / ps;
    let pages = AddressSpace::round_pages(len);
    let hi = lo + pages;
    let last = mid.regions@.last();
    assert(pages > 0);
    assert((start + len + ps - 1) / ps == hi) by {
        vstd::arithmetic::div_mod::lemma_hoist_over_denominator(
            len + ps - 1,
            lo,
            PAGE_SIZE as nat,
        );
        assert(start == ps * lo + start % ps) by {
            vstd::arithmetic::div_mod::lemma_fundamental_div_mod(start, ps);
        }
        assert(lo * ps == ps * lo) by (nonlinear_arith);
    }
    assert(mid.regions@ =~= pre.regions@.push(last));
    assert(forall|i: int| 0 <= i < pre.regions@.len()
        ==> mid.regions@[i] == pre.regions@[i]);
    // every page of [lo, hi) is covered by the new region
    assert forall|vpn: int| lo <= vpn < hi implies mid.mapped(vpn) by {
        assert(mid.regions@[mid.regions@.len() - 1].contains_vpn(vpn));
    }
    // no region straddles the boundary: the old ones do not overlap at all,
    // the new one lies exactly within
    assert forall|i: int| 0 <= i < mid.regions@.len()
        implies !(#[trigger] mid.regions@[i]).overlaps_range(lo, hi)
            || mid.regions@[i].within(lo, hi) by {
        if i < pre.regions@.len() {
            assert(!pre.regions@[i].overlaps_range(lo, hi));
        } else {
            assert(mid.regions@[i].within(lo, hi));
        }
    }
    assert(mid.munmap_ok(start, len));
    // removal drops exactly the new region
    assert forall|i: int| 0 <= i < pre.regions@.len()
        implies !(#[trigger] pre.regions@[i]).within(lo, hi) by {
        assert(pre.regions@[i].wf(n));
        assert(!pre.regions@[i].overlaps_range(lo, hi));
    }
    lemma_remove_range_noop(pre.regions@, lo, hi);
    assert(mid.regions@.drop_last() =~= pre.regions@);
    assert(last.within(lo, hi));
    assert(remove_range(mid.regions@, lo, hi) == pre.regions@);
}

/// Law: a value written by the kernel through the cross-address-space
/// translation primitive reads back, through the same primitive at the same
/// address, exactly as it was written -- also when the record straddles a
/// page boundary onto a different physical frame.
pub proof fn lemma_write_read_round_trip(
    space: AddressSpace,
    phys: PhysMem,
    addr: int,
    data: Seq<u8>,
)
    requires
        forall|i: int| 0 <= i < data.len()
            ==> space.view_byte(phys, addr + i) == data[i],
    ensures
        space.read_seq(phys, addr, data.len() as int) == data,
{
    assert(space.read_seq(phys, addr, data.len() as int) =~= data);
}

} // verus!
