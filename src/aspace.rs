//! An address space: a bounded range of addresses, a set of disjoint regions
//! with their permissions and backing policy, and the 4 KiB frames that back
//! the pages touched so far.
use vstd::prelude::*;
use crate::addr::{allows, flags_allow, page_floor, PAGE_SIZE};

verus! {

/// A contiguous sub-range of an address space with one set of permissions
/// and one backing policy.
#[derive(Clone, Copy, Debug, PartialEq, Eq, Structural)]
pub struct Region {
    pub start: usize,
    pub size: usize,
    pub flags: u8,
    /// Backed in full when created (eager) rather than page by page on fault.
    pub populate: bool,
}

impl Region {
    pub open spec fn contains(self, a: int) -> bool {
        self.start <= a < self.start + self.size
    }

    pub open spec fn overlaps(self, start: int, size: int) -> bool {
        self.start < start + size && start < self.start + self.size
    }
}

/// Why an address-space operation was refused.
#[derive(Clone, Copy, Debug, PartialEq, Eq, Structural)]
pub enum AspaceError {
    /// A range that is unaligned, empty, or outside the address space.
    InvalidParam,
    /// A range that intersects a region already present.
    Overlap,
    /// No frame is left to back a page.
    OutOfMemory,
    /// An access to a page that is not backed.
    NotMapped,
}

/// A piece of a guest range that lies within one page: `len` bytes from
/// guest address `addr`, held in the frames from position `phys` on.
#[derive(Clone, Copy, Debug, PartialEq, Eq, Structural)]
pub struct ByteRun {
    pub addr: usize,
    pub phys: usize,
    pub len: usize,
}

/// Page-granular address space. Frame `i` backs the page that starts at
/// `pages[i]` and occupies `mem[i * PAGE_SIZE .. (i + 1) * PAGE_SIZE]`.
pub struct AddrSpace {
    base: usize,
    root: usize,
    size: usize,
    frame_limit: usize,
    regions: Vec<Region>,
    pages: Vec<usize>,
    mem: Vec<u8>,
}

proof fn lemma_aligned_gap(x: int, y: int)
    requires
        x % 4096 == 0,
        y % 4096 == 0,
        x < y,
    ensures
        x + 4096 <= y,
{
    let qx = x / 4096;
    let qy = y / 4096;
    assert(x == 4096 * qx);
    assert(y == 4096 * qy);
}

proof fn lemma_floor(a: int)
    requires
        a >= 0,
    ensures
        page_floor(a) % 4096 == 0,
        0 <= a - page_floor(a) < 4096,
        page_floor(a) >= 0,
        (a - page_floor(a)) == a % 4096,
{
}

/// For an aligned range, membership of `a` is membership of its page.
proof fn lemma_floor_in_range(a: int, start: int, end: int)
    requires
        a >= 0,
        start % 4096 == 0,
        end % 4096 == 0,
    ensures
        (start <= a < end) == (start <= page_floor(a) < end),
{
    lemma_floor(a);
    if page_floor(a) < end {
        lemma_aligned_gap(page_floor(a), end);
    }
    if start <= a && page_floor(a) < start {
        lemma_aligned_gap(page_floor(a), start);
    }
}

proof fn lemma_frame_bound(i: int, off: int, n: int)
    requires
        0 <= i < n,
        0 <= off < 4096,
    ensures
        0 <= i * 4096 + off < n * 4096,
        i * 4096 + off + 1 <= n * 4096,
{
    assert(i * 4096 + 4096 <= n * 4096) by (nonlinear_arith)
        requires
            0 <= i < n,
    ;
}

impl AddrSpace {
    pub closed spec fn base(&self) -> int {
        self.base as int
    }

    pub closed spec fn size(&self) -> int {
        self.size as int
    }

    /// Handle of the translation-table root that the page-table backend gave
    /// this space.
    pub closed spec fn root(&self) -> int {
        self.root as int
    }

    /// How many frames this space may use at most.
    pub closed spec fn frame_limit(&self) -> int {
        self.frame_limit as int
    }

    pub closed spec fn regions(&self) -> Seq<Region> {
        self.regions@
    }

    /// How many pages are backed.
    pub closed spec fn page_count(&self) -> int {
        self.pages@.len() as int
    }

    /// The page holding `a` is backed by a frame.
    pub closed spec fn backed(&self, a: int) -> bool {
        exists|i: int| 0 <= i < self.pages@.len() && self.pages@[i] as int == page_floor(a)
    }

    closed spec fn page_index(&self, a: int) -> int {
        choose|i: int| 0 <= i < self.pages@.len() && self.pages@[i] as int == page_floor(a)
    }

    /// The byte stored at `a`, meaningful where `a` is backed.
    pub closed spec fn byte_at(&self, a: int) -> u8 {
        self.mem@[self.page_index(a) * 4096 + a % 4096]
    }

    pub closed spec fn wf(&self) -> bool {
        &&& self.base % 4096 == 0
        &&& self.size % 4096 == 0
        &&& self.base + self.size <= usize::MAX
        &&& self.mem@.len() == self.pages@.len() * 4096
        &&& self.pages@.len() <= self.frame_limit
        &&& self.pages@.no_duplicates()
        &&& forall|i: int|
            0 <= i < self.regions@.len() ==> {
                let r = #[trigger] self.regions@[i];
                &&& r.start % 4096 == 0
                &&& r.size % 4096 == 0
                &&& r.size > 0
                &&& self.base <= r.start
                &&& r.start + r.size <= self.base + self.size
            }
        &&& forall|i: int, j: int|
            0 <= i < self.regions@.len() && 0 <= j < self.regions@.len() && i != j
                ==> !(#[trigger] self.regions@[i]).overlaps(
                (#[trigger] self.regions@[j]).start as int,
                self.regions@[j].size as int,
            )
        &&& forall|i: int|
            0 <= i < self.pages@.len() ==> {
                &&& (#[trigger] self.pages@[i]) % 4096 == 0
                &&& exists|j: int|
                    0 <= j < self.regions@.len() && (#[trigger] self.regions@[j]).contains(
                        self.pages@[i] as int,
                    )
            }
    }

    /// A fault at `addr` with access `access` can be resolved: a region
    /// holds `addr` and grants the access, and the page is backed or a frame
    /// is left to back it.
    pub open spec fn fault_resolves(&self, addr: int, access: u8) -> bool {
        exists|i: int|
            0 <= i < self.regions().len() && (#[trigger] self.regions()[i]).contains(addr)
                && flags_allow(self.regions()[i].flags, access) && (self.backed(addr)
                || self.page_count() < self.frame_limit())
    }

    /// Same bounds, regions and frame limit.
    pub open spec fn same_layout(&self, other: &AddrSpace) -> bool {
        &&& self.base() == other.base()
        &&& self.size() == other.size()
        &&& self.root() == other.root()
        &&& self.frame_limit() == other.frame_limit()
        &&& self.regions() == other.regions()
    }

    proof fn lemma_index(&self, i: int, a: int)
        requires
            self.wf(),
            0 <= i < self.pages@.len(),
            self.pages@[i] as int == page_floor(a),
        ensures
            self.backed(a),
            self.page_index(a) == i,
    {
        let k = self.page_index(a);
        assert(self.pages@[k] == self.pages@[i]);
    }

    /// Creates an empty address space over `[base, base + size)`, translated
    /// through the table whose root handle is `root`, whose pages may use at
    /// most `frame_limit` frames.
    pub fn new_empty(base: usize, size: usize, root: usize, frame_limit: usize) -> (r: Result<
        AddrSpace,
        AspaceError,
    >)
        ensures
            r is Err <==> !(base % 4096 == 0 && size % 4096 == 0 && base + size <= usize::MAX),
            r is Err ==> r == Err::<AddrSpace, AspaceError>(AspaceError::InvalidParam),
            r matches Ok(s) ==> {
                &&& s.wf()
                &&& s.base() == base
                &&& s.size() == size
                &&& s.root() == root
                &&& s.frame_limit() == frame_limit
                &&& s.regions().len() == 0
                &&& s.page_count() == 0
                &&& forall|a: int| !s.backed(a)
            },
    {
        if !memory_addr::is_aligned_4k(base) || !memory_addr::is_aligned_4k(size) || size
            > usize::MAX - base {
            return Err(AspaceError::InvalidParam);
        }
        Ok(AddrSpace {
            base,
            root,
            size,
            frame_limit,
            regions: Vec::new(),
            pages: Vec::new(),
            mem: Vec::new(),
        })
    }

    /// What a fault at `addr` with access `access` does to `self`, giving
    /// `next` and the answer `r`: it is resolved exactly when
    /// `fault_resolves` holds; a page that was not backed then gets one
    /// zeroed frame, and nothing else changes.
    pub open spec fn fault_effect(&self, next: &AddrSpace, addr: int, access: u8, r: bool) -> bool {
        &&& r == self.fault_resolves(addr, access)
        &&& next.same_layout(self)
        &&& if r && !self.backed(addr) {
            &&& next.page_count() == self.page_count() + 1
            &&& forall|a: int| #[trigger] next.backed(a) == (self.backed(a) || page_floor(a) == page_floor(addr))
            &&& forall|a: int| self.backed(a) ==> #[trigger] next.byte_at(a) == self.byte_at(a)
            &&& forall|a: int| page_floor(a) == page_floor(addr) ==> #[trigger] next.byte_at(a) == 0
        } else {
            *next == *self
        }
    }

    /// Index of the region that holds `addr`, if any.
    fn find_region(&self, addr: usize) -> (r: Option<usize>)
        ensures
            r matches Some(i) ==> i < self.regions@.len() && self.regions@[i as int].contains(addr as int),
            r is None ==> forall|i: int| 0 <= i < self.regions@.len() ==> !(#[trigger] self.regions@[i]).contains(addr as int),
    {
        let mut i: usize = 0;
        while i < self.regions.len()
            invariant
                i <= self.regions@.len(),
                forall|k: int| 0 <= k < i ==> !(#[trigger] self.regions@[k]).contains(addr as int),
            decreases self.regions@.len() - i,
        {
            let r = self.regions[i];
            if r.start <= addr && addr - r.start < r.size {
                return Some(i);
            }
            i = i + 1;
        }
        None
    }

    /// Index of the frame that backs the page starting at `pb`, if any.
    fn find_page(&self, pb: usize) -> (r: Option<usize>)
        ensures
            r matches Some(i) ==> i < self.pages@.len() && self.pages@[i as int] == pb,
            r is None ==> forall|i: int| 0 <= i < self.pages@.len() ==> self.pages@[i] != pb,
    {
        let mut i: usize = 0;
        while i < self.pages.len()
            invariant
                i <= self.pages@.len(),
                forall|k: int| 0 <= k < i ==> self.pages@[k] != pb,
            decreases self.pages@.len() - i,
        {
            if self.pages[i] == pb {
                return Some(i);
            }
            i = i + 1;
        }
        None
    }

    /// Backs the page at `pb` with a fresh zeroed frame.
    fn alloc_page(&mut self, pb: usize)
        requires
            old(self).wf(),
            pb % 4096 == 0,
            exists|j: int| 0 <= j < old(self).regions@.len() && (#[trigger] old(self).regions@[j]).contains(pb as int),
            forall|i: int| 0 <= i < old(self).pages@.len() ==> old(self).pages@[i] != pb,
            old(self).pages@.len() < old(self).frame_limit,
        ensures
            final(self).wf(),
            final(self).same_layout(old(self)),
            final(self).pages@ == old(self).pages@.push(pb),
            forall|a: int| #[trigger] final(self).backed(a) == (old(self).backed(a) || page_floor(a) == pb),
            forall|a: int| old(self).backed(a) ==> #[trigger] final(self).byte_at(a) == old(self).byte_at(a),
            forall|a: int| page_floor(a) == pb ==> #[trigger] final(self).byte_at(a) == 0,
    {
        let ghost old_mem = self.mem@;
        let mut k: usize = 0;
        while k < PAGE_SIZE
            invariant
                k <= PAGE_SIZE,
                self.mem@.len() == old_mem.len() + k,
                forall|x: int| 0 <= x < old_mem.len() ==> self.mem@[x] == old_mem[x],
                forall|x: int| old_mem.len() <= x < self.mem@.len() ==> self.mem@[x] == 0,
                self.pages == old(self).pages,
                self.regions == old(self).regions,
                self.base == old(self).base,
                self.size == old(self).size,
                self.root == old(self).root,
                self.frame_limit == old(self).frame_limit,
                old_mem == old(self).mem@,
            decreases PAGE_SIZE - k,
        {
            self.mem.push(0);
            k = k + 1;
        }
        self.pages.push(pb);
        let ghost s0 = *old(self);
        let ghost n = s0.pages@.len();
        assert(self.pages@.no_duplicates()) by {
            assert forall|i: int, j: int| 0 <= i < self.pages@.len() && 0 <= j < self.pages@.len() && i != j
                implies self.pages@[i] != self.pages@[j] by {
                if i < n && j < n {
                    assert(s0.pages@[i] != s0.pages@[j]);
                }
            }
        }
        assert forall|i: int| 0 <= i < self.pages@.len() implies {
            &&& (#[trigger] self.pages@[i]) % 4096 == 0
            &&& exists|j: int| 0 <= j < self.regions@.len() && (#[trigger] self.regions@[j]).contains(self.pages@[i] as int)
        } by {
            if i < n {
                assert(s0.pages@[i] == self.pages@[i]);
                let j = choose|j: int| 0 <= j < s0.regions@.len() && (#[trigger] s0.regions@[j]).contains(s0.pages@[i] as int);
                assert(self.regions@[j].contains(self.pages@[i] as int));
            } else {
                let j = choose|j: int| 0 <= j < s0.regions@.len() && (#[trigger] s0.regions@[j]).contains(pb as int);
                assert(self.regions@[j].contains(self.pages@[i] as int));
            }
        }
        assert(self.mem@.len() == self.pages@.len() * 4096);
        assert forall|a: int| #[trigger] self.backed(a) == (s0.backed(a) || page_floor(a) == pb) by {
            if s0.backed(a) {
                let i = s0.page_index(a);
                assert(self.pages@[i] == s0.pages@[i]);
            }
            if page_floor(a) == pb {
                assert(self.pages@[n as int] == pb);
            }
            if self.backed(a) {
                let i = self.page_index(a);
                if i < n {
                    assert(s0.pages@[i] == self.pages@[i]);
                }
            }
        }
        assert forall|a: int| s0.backed(a) implies #[trigger] self.byte_at(a) == s0.byte_at(a) by {
            let i = s0.page_index(a);
            assert(self.pages@[i] == s0.pages@[i]);
            self.lemma_index(i, a);
            lemma_frame_bound(i, a % 4096, n as int);
        }
        assert forall|a: int| page_floor(a) == pb implies #[trigger] self.byte_at(a) == 0 by {
            self.lemma_index(n as int, a);
            assert(n * 4096 + a % 4096 >= old_mem.len()) by (nonlinear_arith)
                requires old_mem.len() == n * 4096, a % 4096 >= 0;
            lemma_frame_bound(n as int, a % 4096, n as int + 1);
        }
    }

    proof fn lemma_region_unique(&self, i: int, j: int, a: int)
        requires
            self.wf(),
            0 <= i < self.regions@.len(),
            0 <= j < self.regions@.len(),
            self.regions@[i].contains(a),
            self.regions@[j].contains(a),
        ensures
            i == j,
    {
        if i != j {
            assert(!self.regions@[i].overlaps(self.regions@[j].start as int, self.regions@[j].size as int));
        }
    }

    /// Resolves a page fault at `addr` for an access of kind `access`.
    /// Returns `false` when no region holds `addr`, when the region does not
    /// grant the access, or when no frame is left; a page already backed is
    /// resolved without allocating again.
    pub fn handle_page_fault(&mut self, addr: usize, access: u8) -> (r: bool)
        requires
            old(self).wf(),
        ensures
            final(self).wf(),
            old(self).fault_effect(final(self), addr as int, access, r),
    {
        let ghost s0 = *self;
        match self.find_region(addr) {
            None => {
                false
            },
            Some(i) => {
                let region = self.regions[i];
                proof {
                    assert forall|j: int| 0 <= j < s0.regions().len() && (#[trigger] s0.regions()[j]).contains(addr as int)
                        implies j == i by {
                        s0.lemma_region_unique(i as int, j, addr as int);
                    }
                }
                if !allows(region.flags, access) {
                    return false;
                }
                proof {
                    assert(s0.regions()[i as int].contains(addr as int));
                    assert(flags_allow(s0.regions()[i as int].flags, access));
                }
                let pb = memory_addr::align_down_4k(addr);
                match self.find_page(pb) {
                    Some(k) => {
                        proof {
                            self.lemma_index(k as int, addr as int);
                        }
                        true
                    },
                    None => {
                        proof {
                            assert(!s0.backed(addr as int));
                        }
                        if self.pages.len() < self.frame_limit {
                            proof {
                                lemma_floor(addr as int);
                                lemma_floor_in_range(addr as int, region.start as int, region.start + region.size);
                            }
                            self.alloc_page(pb);
                            true
                        } else {
                            false
                        }
                    },
                }
            },
        }
    }

    /// `[start, start + size)` is a well-formed new region of this space:
    /// page-aligned, non-empty and inside the bounds.
    pub open spec fn range_valid(&self, start: int, size: int) -> bool {
        &&& start % 4096 == 0
        &&& size % 4096 == 0
        &&& size > 0
        &&& self.base() <= start
        &&& start + size <= self.base() + self.size()
    }

    /// Some region already present intersects `[start, start + size)`.
    pub open spec fn range_taken(&self, start: int, size: int) -> bool {
        exists|i: int| 0 <= i < self.regions().len() && (#[trigger] self.regions()[i]).overlaps(start, size)
    }

    /// What `allocate_and_map` answers for these arguments.
    pub open spec fn map_outcome(&self, start: int, size: int, populate: bool) -> Result<(), AspaceError> {
        if !self.range_valid(start, size) {
            Err(AspaceError::InvalidParam)
        } else if self.range_taken(start, size) {
            Err(AspaceError::Overlap)
        } else if populate && self.page_count() + size / 4096 > self.frame_limit() {
            Err(AspaceError::OutOfMemory)
        } else {
            Ok(())
        }
    }

    /// Adds the region `[start, start + size)` with permissions `flags`.
    /// With `populate` every page of it is backed at once by a zeroed frame;
    /// otherwise pages are backed when they fault. On any error nothing
    /// changes.
    pub fn allocate_and_map(&mut self, start: usize, size: usize, flags: u8, populate: bool) -> (r: Result<(), AspaceError>)
        requires
            old(self).wf(),
        ensures
            final(self).wf(),
            r == old(self).map_outcome(start as int, size as int, populate),
            r is Err ==> *final(self) == *old(self),
            r is Ok ==> {
                &&& final(self).base() == old(self).base()
                &&& final(self).size() == old(self).size()
                &&& final(self).root() == old(self).root()
                &&& final(self).frame_limit() == old(self).frame_limit()
                &&& final(self).regions() == old(self).regions().push(
                    Region { start, size, flags, populate },
                )
                &&& final(self).page_count() == old(self).page_count() + if populate { size / 4096 } else { 0 }
                &&& forall|a: int| #[trigger] final(self).backed(a) == (old(self).backed(a) || (populate && start <= a < start + size))
                &&& forall|a: int| old(self).backed(a) ==> #[trigger] final(self).byte_at(a) == old(self).byte_at(a)
                &&& forall|a: int| populate && start <= a < start + size ==> #[trigger] final(self).byte_at(a) == 0
            },
    {
        if !memory_addr::is_aligned_4k(start) || !memory_addr::is_aligned_4k(size) || size == 0
            || start < self.base || start - self.base > self.size || size > self.size - (start
            - self.base) {
            return Err(AspaceError::InvalidParam);
        }
        let mut i: usize = 0;
        while i < self.regions.len()
            invariant
                self.wf(),
                i <= self.regions@.len(),
                start + size <= usize::MAX,
                self.range_valid(start as int, size as int),
                forall|k: int| 0 <= k < i ==> !(#[trigger] self.regions@[k]).overlaps(start as int, size as int),
            decreases self.regions@.len() - i,
        {
            let r = self.regions[i];
            proof {
                assert(r.start + r.size <= self.base + self.size);
            }
            if r.start < start + size && start < r.start + r.size {
                proof {
                    assert(self.regions()[i as int].overlaps(start as int, size as int));
                }
                return Err(AspaceError::Overlap);
            }
            i = i + 1;
        }
        if populate && size / PAGE_SIZE > self.frame_limit - self.pages.len() {
            return Err(AspaceError::OutOfMemory);
        }
        let ghost s0 = *self;
        let new_region = Region { start, size, flags, populate };
        self.regions.push(new_region);
        let ghost n = s0.regions@.len();
        proof {
            assert(self.regions@[n as int] == new_region);
            assert forall|i: int| 0 <= i < self.pages@.len() implies {
                &&& (#[trigger] self.pages@[i]) % 4096 == 0
                &&& exists|j: int| 0 <= j < self.regions@.len() && (#[trigger] self.regions@[j]).contains(self.pages@[i] as int)
            } by {
                let j = choose|j: int| 0 <= j < s0.regions@.len() && (#[trigger] s0.regions@[j]).contains(s0.pages@[i] as int);
                assert(self.regions@[j] == s0.regions@[j]);
            }
            assert forall|i: int, j: int|
                0 <= i < self.regions@.len() && 0 <= j < self.regions@.len() && i != j
                implies !(#[trigger] self.regions@[i]).overlaps(
                    (#[trigger] self.regions@[j]).start as int, self.regions@[j].size as int) by {
                if i < n && j < n {
                    assert(s0.regions@[i] == self.regions@[i]);
                    assert(s0.regions@[j] == self.regions@[j]);
                } else if i < n {
                    assert(s0.regions@[i] == self.regions@[i]);
                } else {
                    assert(s0.regions@[j] == self.regions@[j]);
                }
            }
            assert forall|a: int| #[trigger] self.backed(a) == s0.backed(a) by {}
            assert forall|a: int| s0.backed(a) implies #[trigger] self.byte_at(a) == s0.byte_at(a) by {}
        }
        if !populate {
            return Ok(());
        }
        let mut off: usize = 0;
        let ghost mut k: int = 0;
        while off < size
            invariant
                self.wf(),
                s0.wf(),
                s0.range_valid(start as int, size as int),
                !s0.range_taken(start as int, size as int),
                s0.page_count() + size / 4096 <= s0.frame_limit(),
                self.base == s0.base,
                self.size == s0.size,
                self.root == s0.root,
                self.frame_limit == s0.frame_limit,
                self.regions@ == s0.regions@.push(new_region),
                n == s0.regions@.len(),
                new_region == (Region { start, size, flags, populate }),
                off == k * 4096,
                off <= size,
                self.pages@.len() == s0.pages@.len() + k,
                forall|i: int| 0 <= i < self.pages@.len() && new_region.contains(#[trigger] self.pages@[i] as int)
                    ==> self.pages@[i] < start + off,
                forall|a: int| #[trigger] self.backed(a) == (s0.backed(a) || (start <= page_floor(a) < start + off)),
                forall|a: int| s0.backed(a) ==> #[trigger] self.byte_at(a) == s0.byte_at(a),
                forall|a: int| start <= page_floor(a) < start + off ==> #[trigger] self.byte_at(a) == 0,
            decreases size - off,
        {
            let pb = start + off;
            proof {
                assert(self.regions@[n as int] == new_region);
                assert(new_region.contains(pb as int));
                assert forall|i: int| 0 <= i < self.pages@.len() implies self.pages@[i] != pb by {
                    if self.pages@[i] == pb {
                        let j = choose|j: int| 0 <= j < self.regions@.len() && (#[trigger] self.regions@[j]).contains(self.pages@[i] as int);
                        if j < n {
                            assert(s0.regions()[j] == self.regions@[j]);
                            assert(s0.regions()[j].overlaps(start as int, size as int));
                        }
                    }
                }
                lemma_aligned_gap(off as int, size as int);
                assert(self.pages@.len() < self.frame_limit) by {
                    assert(k < size / 4096) by {
                        vstd::arithmetic::div_mod::lemma_div_multiples_vanish(k + 1, 4096);
                        vstd::arithmetic::div_mod::lemma_div_is_ordered((k + 1) * 4096, size as int, 4096);
                    }
                }
            }
            self.alloc_page(pb);
            proof {
                assert forall|a: int| #[trigger] self.backed(a) == (s0.backed(a) || (start <= page_floor(a) < start + off + 4096)) by {
                    lemma_floor(if a >= 0 { a } else { 0 });
                    if start + off < page_floor(a) && page_floor(a) % 4096 == 0 {
                        lemma_aligned_gap(pb as int, page_floor(a));
                    }
                }
                assert forall|a: int| start <= page_floor(a) < start + off + 4096 implies #[trigger] self.byte_at(a) == 0 by {
                    if page_floor(a) % 4096 == 0 && start + off < page_floor(a) {
                        lemma_aligned_gap(pb as int, page_floor(a));
                    }
                }
                k = k + 1;
            }
            off = off + PAGE_SIZE;
        }
        proof {
            assert(off == size);
            vstd::arithmetic::div_mod::lemma_div_multiples_vanish(k, 4096);
            assert forall|a: int| #[trigger] self.backed(a) == (s0.backed(a) || (start <= a < start + size)) by {
                if a >= 0 {
                    lemma_floor_in_range(a, start as int, start + size);
                }
            }
            assert forall|a: int| start <= a < start + size implies #[trigger] self.byte_at(a) == 0 by {
                lemma_floor_in_range(a, start as int, start + size);
            }
        }
        Ok(())
    }

    /// Every address of `[addr, addr + len)` lies in a backed page.
    pub open spec fn range_backed(&self, addr: int, len: int) -> bool {
        forall|a: int| addr <= a < addr + len ==> #[trigger] self.backed(a)
    }

    /// The `len` bytes stored from `addr` on.
    pub open spec fn bytes_at(&self, addr: int, len: nat) -> Seq<u8> {
        Seq::new(len, |i: int| self.byte_at(addr + i))
    }

    /// `next` is `self` with `bytes` stored from `addr` on.
    pub open spec fn write_effect(&self, next: &AddrSpace, addr: int, bytes: Seq<u8>) -> bool {
        &&& next.same_layout(self)
        &&& next.page_count() == self.page_count()
        &&& forall|a: int| #[trigger] next.backed(a) == self.backed(a)
        &&& forall|a: int|
            next.backed(a) ==> #[trigger] next.byte_at(a) == if addr <= a < addr + bytes.len() {
                bytes[a - addr]
            } else {
                self.byte_at(a)
            }
    }

    proof fn lemma_slot_injective(&self, a: int, b: int)
        requires
            self.wf(),
            self.backed(a),
            self.backed(b),
            self.page_index(a) * 4096 + a % 4096 == self.page_index(b) * 4096 + b % 4096,
        ensures
            a == b,
    {
        let p = self.page_index(a);
        let q = self.page_index(b);
        assert(p == q && a % 4096 == b % 4096) by (nonlinear_arith)
            requires
                p * 4096 + a % 4096 == q * 4096 + b % 4096,
                0 <= a % 4096 < 4096,
                0 <= b % 4096 < 4096,
        ;
    }

    /// Checks that every byte of `[addr, addr + len)` is backed.
    fn check_backed(&self, addr: usize, len: usize) -> (r: bool)
        requires
            self.wf(),
            addr + len <= usize::MAX,
        ensures
            r == self.range_backed(addr as int, len as int),
    {
        let mut i: usize = 0;
        while i < len
            invariant
                i <= len,
                addr + len <= usize::MAX,
                self.wf(),
                forall|a: int| addr <= a < addr + i ==> #[trigger] self.backed(a),
            decreases len - i,
        {
            let a = addr + i;
            match self.find_page(memory_addr::align_down_4k(a)) {
                None => {
                    proof {
                        if self.backed(a as int) {
                            let k = self.page_index(a as int);
                            assert(self.pages@[k] as int == page_floor(a as int));
                        }
                    }
                    return false;
                },
                Some(k) => {
                    proof {
                        self.lemma_index(k as int, a as int);
                    }
                },
            }
            i = i + 1;
        }
        true
    }

    /// Position in `mem` of the byte at `a`, a backed address.
    fn slot(&self, a: usize) -> (r: usize)
        requires
            self.wf(),
            self.backed(a as int),
        ensures
            r == self.page_index(a as int) * 4096 + a % 4096,
            r < self.mem@.len(),
    {
        let pb = memory_addr::align_down_4k(a);
        let _total = self.mem.len();
        match self.find_page(pb) {
            Some(k) => {
                proof {
                    self.lemma_index(k as int, a as int);
                    lemma_frame_bound(k as int, (a % 4096) as int, self.pages@.len() as int);
                }
                k * PAGE_SIZE + (a - pb)
            },
            None => {
                proof {
                    let k = self.page_index(a as int);
                    assert(self.pages@[k] == pb);
                }
                0
            },
        }
    }

    /// Stores `bytes[from..from + len]` from `addr` on.
    pub(crate) fn store(&mut self, addr: usize, bytes: &[u8], from: usize, len: usize)
        requires
            old(self).wf(),
            from + len <= bytes@.len(),
            addr + len <= usize::MAX,
            old(self).range_backed(addr as int, len as int),
        ensures
            final(self).wf(),
            old(self).write_effect(final(self), addr as int, bytes@.subrange(from as int, from + len)),
    {
        let ghost s0 = *self;
        let ghost part = bytes@.subrange(from as int, from + len);
        let _total = bytes.len();
        let mut i: usize = 0;
        while i < len
            invariant
                s0.wf(),
                from + len <= usize::MAX,
                i <= len,
                from + len <= bytes@.len(),
                part == bytes@.subrange(from as int, from + len),
                addr + len <= usize::MAX,
                s0.range_backed(addr as int, len as int),
                self.base == s0.base,
                self.size == s0.size,
                self.root == s0.root,
                self.frame_limit == s0.frame_limit,
                self.regions == s0.regions,
                self.pages == s0.pages,
                self.mem@.len() == s0.mem@.len(),
                forall|a: int|
                    s0.backed(a) ==> #[trigger] self.byte_at(a) == if addr <= a < addr + i {
                        part[a - addr]
                    } else {
                        s0.byte_at(a)
                    },
            decreases len - i,
        {
            let a = addr + i;
            proof {
                assert(s0.backed(a as int));
                assert(self.wf());
                assert(self.backed(a as int));
            }
            let k = self.slot(a);
            let ghost before = *self;
            self.mem.set(k, bytes[from + i]);
            proof {
                assert forall|x: int|
                    s0.backed(x) implies #[trigger] self.byte_at(x) == if addr <= x < addr + i + 1 {
                        part[x - addr]
                    } else {
                        s0.byte_at(x)
                    } by {
                    assert(before.byte_at(x) == if addr <= x < addr + i { part[x - addr] } else { s0.byte_at(x) });
                    if x != a {
                        if s0.page_index(x) * 4096 + x % 4096 == k {
                            s0.lemma_slot_injective(x, a as int);
                        }
                    }
                }
            }
            i = i + 1;
        }
        proof {
            assert(self.wf());
        }
    }

    /// Stores `bytes` from `addr` on, across as many pages as the range
    /// spans. Fails with `NotMapped`, changing nothing, unless every byte of
    /// the range is backed.
    pub fn write(&mut self, addr: usize, bytes: &[u8]) -> (r: Result<(), AspaceError>)
        requires
            old(self).wf(),
        ensures
            final(self).wf(),
            r is Ok <==> addr + bytes@.len() <= usize::MAX && old(self).range_backed(addr as int, bytes@.len() as int),
            r is Err ==> r == Err::<(), AspaceError>(AspaceError::NotMapped) && *final(self) == *old(self),
            r is Ok ==> old(self).write_effect(final(self), addr as int, bytes@),
    {
        let len = bytes.len();
        if len > usize::MAX - addr || !self.check_backed(addr, len) {
            return Err(AspaceError::NotMapped);
        }
        self.store(addr, bytes, 0, len);
        proof {
            assert(bytes@.subrange(0, len as int) =~= bytes@);
        }
        Ok(())
    }

    /// Reads the `len` bytes stored from `addr` on. Fails with `NotMapped`
    /// unless every byte of the range is backed.
    pub fn read(&self, addr: usize, len: usize) -> (r: Result<Vec<u8>, AspaceError>)
        requires
            self.wf(),
        ensures
            r is Ok <==> addr + len <= usize::MAX && self.range_backed(addr as int, len as int),
            r is Err ==> r == Err::<Vec<u8>, AspaceError>(AspaceError::NotMapped),
            r matches Ok(v) ==> v@ == self.bytes_at(addr as int, len as nat),
    {
        if len > usize::MAX - addr || !self.check_backed(addr, len) {
            return Err(AspaceError::NotMapped);
        }
        let mut out: Vec<u8> = Vec::new();
        let mut i: usize = 0;
        while i < len
            invariant
                self.wf(),
                i <= len,
                addr + len <= usize::MAX,
                self.range_backed(addr as int, len as int),
                out@.len() == i,
                forall|j: int| 0 <= j < i ==> out@[j] == #[trigger] self.byte_at(addr + j),
            decreases len - i,
        {
            proof {
                assert(self.backed(addr + i));
            }
            let k = self.slot(addr + i);
            out.push(self.mem[k]);
            i = i + 1;
        }
        proof {
            assert(out@ =~= self.bytes_at(addr as int, len as nat));
        }
        Ok(out)
    }

    /// Position, among the frames, of the byte at the backed address `a`.
    pub closed spec fn frame_offset(&self, a: int) -> int {
        self.page_index(a) * 4096 + a % 4096
    }

    /// `runs` lists, in order, the pieces of `[addr, addr + len)` that each
    /// lie within one page, with the frame position of each.
    pub open spec fn runs_cover(&self, runs: Seq<ByteRun>, addr: int, len: int) -> bool {
        &&& runs.len() == 0 <==> len == 0
        &&& runs.len() > 0 ==> runs[0].addr == addr && runs.last().addr + runs.last().len == addr + len
        &&& forall|k: int| 0 < k < runs.len() ==> (#[trigger] runs[k]).addr == runs[k - 1].addr + runs[k - 1].len
        &&& forall|k: int|
            0 <= k < runs.len() ==> {
                &&& (#[trigger] runs[k]).len > 0
                &&& addr <= runs[k].addr
                &&& runs[k].addr + runs[k].len <= addr + len
                &&& runs[k].addr % 4096 + runs[k].len <= 4096
                &&& runs[k].phys == self.frame_offset(runs[k].addr as int)
            }
    }

    /// The physically contiguous pieces that make up `[addr, addr + len)`,
    /// one per page touched, in address order. Fails with `NotMapped` unless
    /// every byte of the range is backed.
    pub fn translated_byte_buffer(&self, addr: usize, len: usize) -> (r: Result<Vec<ByteRun>, AspaceError>)
        requires
            self.wf(),
        ensures
            r is Ok <==> addr + len <= usize::MAX && self.range_backed(addr as int, len as int),
            r is Err ==> r == Err::<Vec<ByteRun>, AspaceError>(AspaceError::NotMapped),
            r matches Ok(v) ==> self.runs_cover(v@, addr as int, len as int),
    {
        if len > usize::MAX - addr || !self.check_backed(addr, len) {
            return Err(AspaceError::NotMapped);
        }
        let mut runs: Vec<ByteRun> = Vec::new();
        let mut done: usize = 0;
        while done < len
            invariant
                self.wf(),
                done <= len,
                addr + len <= usize::MAX,
                self.range_backed(addr as int, len as int),
                runs@.len() == 0 <==> done == 0,
                runs@.len() > 0 ==> runs@[0].addr == addr && runs@.last().addr + runs@.last().len == addr + done,
                forall|k: int| 0 < k < runs@.len() ==> (#[trigger] runs@[k]).addr == runs@[k - 1].addr + runs@[k - 1].len,
                forall|k: int|
                    0 <= k < runs@.len() ==> {
                        &&& (#[trigger] runs@[k]).len > 0
                        &&& addr <= runs@[k].addr
                        &&& runs@[k].addr + runs@[k].len <= addr + done
                        &&& runs@[k].addr % 4096 + runs@[k].len <= 4096
                        &&& runs@[k].phys == self.frame_offset(runs@[k].addr as int)
                    },
            decreases len - done,
        {
            let a = addr + done;
            proof {
                assert(self.backed(a as int));
            }
            let off = a - memory_addr::align_down_4k(a);
            let room = PAGE_SIZE - off;
            let n = if room < len - done { room } else { len - done };
            let phys = self.slot(a);
            let ghost prev = runs@;
            runs.push(ByteRun { addr: a, phys, len: n });
            proof {
                assert forall|k: int| 0 < k < runs@.len() implies (#[trigger] runs@[k]).addr == runs@[k - 1].addr + runs@[k - 1].len by {
                    if k < prev.len() {
                        assert(runs@[k] == prev[k]);
                        assert(runs@[k - 1] == prev[k - 1]);
                    } else if prev.len() > 0 {
                        assert(runs@[k - 1] == prev.last());
                    }
                }
                assert forall|k: int| 0 <= k < runs@.len() implies {
                    &&& (#[trigger] runs@[k]).len > 0
                    &&& addr <= runs@[k].addr
                    &&& runs@[k].addr + runs@[k].len <= addr + done + n
                    &&& runs@[k].addr % 4096 + runs@[k].len <= 4096
                    &&& runs@[k].phys == self.frame_offset(runs@[k].addr as int)
                } by {
                    if k < prev.len() {
                        assert(runs@[k] == prev[k]);
                    }
                }
                assert(runs@.last().addr + runs@.last().len == addr + done + n);
            }
            done = done + n;
        }
        Ok(runs)
    }

    /// Tells whether the page that holds `addr` is backed.
    pub fn is_mapped(&self, addr: usize) -> (r: bool)
        requires
            self.wf(),
        ensures
            r == self.backed(addr as int),
    {
        match self.find_page(memory_addr::align_down_4k(addr)) {
            Some(k) => {
                proof {
                    self.lemma_index(k as int, addr as int);
                }
                true
            },
            None => {
                proof {
                    if self.backed(addr as int) {
                        let k = self.page_index(addr as int);
                        assert(self.pages@[k] as int == page_floor(addr as int));
                    }
                }
                false
            },
        }
    }

    /// The translation-table root handle, with which a virtual CPU is
    /// configured to translate through this space.
    pub fn page_table_root(&self) -> (r: usize)
        ensures
            r == self.root(),
    {
        self.root
    }
}

/// Two addresses of one page are backed together.
pub proof fn lemma_same_page_backed(s: AddrSpace, a: int, b: int)
    requires
        page_floor(a) == page_floor(b),
    ensures
        s.backed(a) == s.backed(b),
{
}

/// Once a fault at `addr` has been resolved, a second fault there with the
/// same access is resolved as well, and neither allocates nor changes
/// anything.
pub proof fn lemma_fault_idempotent(
    s0: AddrSpace,
    s1: AddrSpace,
    s2: AddrSpace,
    addr: int,
    access: u8,
    r2: bool,
)
    requires
        s0.fault_effect(&s1, addr, access, true),
        s1.fault_effect(&s2, addr, access, r2),
    ensures
        s1.backed(addr),
        r2,
        s2 == s1,
        s1.page_count() <= s0.page_count() + 1,
{
    let i = choose|i: int|
        0 <= i < s0.regions().len() && (#[trigger] s0.regions()[i]).contains(addr)
            && flags_allow(s0.regions()[i].flags, access) && (s0.backed(addr)
            || s0.page_count() < s0.frame_limit());
    assert(s1.regions()[i] == s0.regions()[i]);
    assert(s1.backed(addr));
}

/// A fault whose access is not granted by the region that holds its address
/// is never resolved, whatever is backed.
pub proof fn lemma_permission_enforced(s: AddrSpace, i: int, addr: int, access: u8)
    requires
        s.wf(),
        0 <= i < s.regions().len(),
        s.regions()[i].contains(addr),
        !flags_allow(s.regions()[i].flags, access),
    ensures
        !s.fault_resolves(addr, access),
{
    assert forall|j: int| 0 <= j < s.regions().len() && (#[trigger] s.regions()[j]).contains(addr)
        implies j == i by {
        s.lemma_region_unique(i, j, addr);
    }
}

/// Bytes written at `addr` read back unchanged: after a successful write of
/// `bytes`, the range is still backed and holds exactly `bytes`, whatever
/// pages it spans.
pub proof fn lemma_write_read_back(s0: AddrSpace, s1: AddrSpace, addr: int, bytes: Seq<u8>)
    requires
        s0.range_backed(addr, bytes.len() as int),
        s0.write_effect(&s1, addr, bytes),
    ensures
        s1.range_backed(addr, bytes.len() as int),
        s1.bytes_at(addr, bytes.len()) == bytes,
{
    assert forall|i: int| 0 <= i < bytes.len() implies s1.bytes_at(addr, bytes.len())[i] == bytes[i] by {
        assert(s0.backed(addr + i));
        assert(s1.backed(addr + i));
    }
    assert(s1.bytes_at(addr, bytes.len()) =~= bytes);
}

/// The regions of every well-formed space, and so of every space built by
/// `new_empty` and successful calls of `allocate_and_map`, are pairwise
/// disjoint.
pub proof fn lemma_regions_disjoint(s: AddrSpace)
    requires
        s.wf(),
    ensures
        forall|i: int, j: int|
            0 <= i < s.regions().len() && 0 <= j < s.regions().len() && i != j
                ==> !(#[trigger] s.regions()[i]).overlaps(
                (#[trigger] s.regions()[j]).start as int,
                s.regions()[j].size as int,
            ),
{
}

/// Two writes, the second starting where the first ended, act as one write
/// of both byte sequences.
pub proof fn lemma_write_compose(s0: AddrSpace, s1: AddrSpace, s2: AddrSpace, addr: int, a: Seq<u8>, b: Seq<u8>)
    requires
        s0.write_effect(&s1, addr, a),
        s1.write_effect(&s2, addr + a.len(), b),
    ensures
        s0.write_effect(&s2, addr, a + b),
{
    assert forall|x: int| s2.backed(x) implies #[trigger] s2.byte_at(x) == if addr <= x < addr + (a + b).len() {
        (a + b)[x - addr]
    } else {
        s0.byte_at(x)
    } by {
        assert(s1.backed(x));
    }
}

/// Writing nothing is a write.
pub proof fn lemma_write_nothing(s: AddrSpace, addr: int)
    ensures
        s.write_effect(&s, addr, Seq::<u8>::empty()),
{
}

} // verus!
