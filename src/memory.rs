use vstd::arithmetic::div_mod::lemma_fundamental_div_mod;
use vstd::prelude::*;

use crate::addr::{align_up_spec, Addr, PhysAddr, VirtAddr};
use crate::constants::{PAGE_R, PAGE_SIZE, PAGE_V, PAGE_W, PAGE_X, PTES_PER_TABLE};

verus! {

/// Monotonic allocator over the physical window `[start, end)`. Nothing is ever freed.
pub struct BumpAllocator {
    start: usize,
    head: usize,
    end: usize,
}

impl BumpAllocator {
    pub closed spec fn wf(&self) -> bool {
        self.start <= self.head <= self.end
    }

    pub closed spec fn start_addr(&self) -> usize {
        self.start
    }

    /// Where the next allocation begins, before alignment.
    pub closed spec fn head_addr(&self) -> usize {
        self.head
    }

    pub closed spec fn end_addr(&self) -> usize {
        self.end
    }

    pub fn new(start: usize, end: usize) -> (r: BumpAllocator)
        requires
            start <= end,
        ensures
            r.wf(),
            r.start_addr() == start,
            r.head_addr() == start,
            r.end_addr() == end,
    {
        BumpAllocator { start, head: start, end }
    }

    /// Hands out `size` bytes at the first multiple of `align` from the head, or `None` when
    /// they do not fit before the end of the window.
    pub fn allocate(&mut self, size: usize, align: usize) -> (r: Option<usize>)
        requires
            old(self).wf(),
            size > 0,
            align > 0,
        ensures
            final(self).wf(),
            final(self).start_addr() == old(self).start_addr(),
            final(self).end_addr() == old(self).end_addr(),
            old(self).head_addr() <= final(self).head_addr(),
            align_up_spec(old(self).head_addr(), align) + size <= old(self).end_addr() ==> r == Some(
                align_up_spec(old(self).head_addr(), align) as usize,
            ) && final(self).head_addr() == align_up_spec(old(self).head_addr(), align) + size,
            align_up_spec(old(self).head_addr(), align) + size > old(self).end_addr() ==> r is None
                && *final(self) == *old(self),
    {
        let head = self.head;
        let rem = head % align;
        let padding = if rem == 0 {
            0
        } else {
            align - rem
        };
        if padding > self.end - head {
            return None;
        }
        let alloc_start = head + padding;
        if size > self.end - alloc_start {
            return None;
        }
        self.head = alloc_start + size;
        Some(alloc_start)
    }
}

/// Every address that `allocate` returns lies in the window and is aligned as asked, and the head
/// never moves back.
pub proof fn lemma_alloc_in_window(a: BumpAllocator, size: usize, align: usize)
    requires
        a.wf(),
        size > 0,
        align > 0,
        align_up_spec(a.head_addr(), align) + size <= a.end_addr(),
    ensures
        a.start_addr() <= align_up_spec(a.head_addr(), align) < a.end_addr(),
        align_up_spec(a.head_addr(), align) % (align as int) == 0,
        a.head_addr() <= align_up_spec(a.head_addr(), align),
{
    let h = a.head_addr() as int;
    let al = align as int;
    if h % al != 0 {
        lemma_fundamental_div_mod(h, al);
        assert((h + (al - h % al)) % al == 0) by (nonlinear_arith)
            requires
                al > 0,
                0 <= h % al < al,
                h == al * (h / al) + h % al,
        {
            assert(h + (al - h % al) == al * (h / al + 1));
        }
    }
}


/// Level-1 index of `va`: bits 31..22.
pub open spec fn vpn1(va: usize) -> u32 {
    ((va as u32) >> 22u32) & 0x3ffu32
}

/// Level-0 index of `va`: bits 21..12.
pub open spec fn vpn0(va: usize) -> u32 {
    ((va as u32) >> 12u32) & 0x3ffu32
}

/// Sv32 entry pointing at the page `pa` with `flags`: `((pa >> 12) << 10) | flags | V`.
pub open spec fn pte_for(pa: usize, flags: u32) -> u32 {
    (((pa / PAGE_SIZE) as u32) << 10u32) | flags | PAGE_V
}

/// Physical address of the page that entry `pte` points at.
pub open spec fn table_addr(pte: u32) -> int {
    (pte >> 10u32) as int * PAGE_SIZE
}

pub open spec fn same_page(a: usize, b: usize) -> bool {
    vpn1(a) == vpn1(b) && vpn0(a) == vpn0(b)
}

/// What a page handed out by `PhysMemory` holds.
pub enum FrameKind {
    Data,
    Root,
    Leaf,
}

/// Physical RAM as the kernel sees it: the kernel image from `kernel_base`, then the free
/// window that the bump allocator hands out page by page. Each page handed out is held as
/// its 1024 32-bit words.
pub struct PhysMemory {
    kernel_base: usize,
    heap: BumpAllocator,
    frames: Vec<Vec<u32>>,
    kinds: Ghost<Seq<FrameKind>>,
}

impl PhysMemory {
    spec fn table(&self, i: int) -> Seq<u32> {
        self.frames@[i]@
    }

    spec fn index_of(&self, pa: int) -> int {
        (pa - self.heap.start_addr()) / (PAGE_SIZE as int)
    }

    spec fn holds_frame(&self, pa: int) -> bool {
        &&& self.heap.start_addr() <= pa < self.heap.head_addr()
        &&& pa % (PAGE_SIZE as int) == 0
    }

    spec fn root_entry_ok(&self, i: int, j: int) -> bool {
        (self.table(i)[j] & PAGE_V) != 0 ==> {
            let t = table_addr(self.table(i)[j]);
            self.holds_frame(t) && self.kinds@[self.index_of(t)] == FrameKind::Leaf
        }
    }

    pub closed spec fn wf(&self) -> bool {
        let start = self.heap.start_addr();
        let head = self.heap.head_addr();
        let end = self.heap.end_addr();
        &&& self.heap.wf()
        &&& start % PAGE_SIZE == 0
        &&& head % PAGE_SIZE == 0
        &&& end % PAGE_SIZE == 0
        &&& end <= u32::MAX
        &&& self.kernel_base % PAGE_SIZE == 0
        &&& self.kernel_base <= start
        &&& self.frames@.len() == (head - start) / (PAGE_SIZE as int)
        &&& self.kinds@.len() == self.frames@.len()
        &&& forall|i: int| 0 <= i < self.frames@.len() ==> (#[trigger] self.frames@[i])@.len() == PTES_PER_TABLE
        &&& forall|i: int, j: int|
            0 <= i < self.frames@.len() && 0 <= j < PTES_PER_TABLE && self.kinds@[i] == FrameKind::Root
                ==> #[trigger] self.root_entry_ok(i, j)
        &&& forall|i1: int, j1: int, i2: int, j2: int|
            0 <= i1 < self.frames@.len() && 0 <= j1 < PTES_PER_TABLE && 0 <= i2 < self.frames@.len() && 0
                <= j2 < PTES_PER_TABLE && self.kinds@[i1] == FrameKind::Root && self.kinds@[i2]
                == FrameKind::Root && (#[trigger] self.table(i1)[j1] & PAGE_V) != 0 && (
            #[trigger] self.table(i2)[j2] & PAGE_V) != 0 && table_addr(self.table(i1)[j1])
                == table_addr(self.table(i2)[j2]) ==> i1 == i2 && j1 == j2
    }

    pub closed spec fn kernel_start(&self) -> usize {
        self.kernel_base
    }

    pub closed spec fn ram_start(&self) -> usize {
        self.heap.start_addr()
    }

    pub closed spec fn ram_end(&self) -> usize {
        self.heap.end_addr()
    }

    /// Address of the next page to be handed out.
    pub closed spec fn next_page(&self) -> usize {
        self.heap.head_addr()
    }

    pub closed spec fn free_pages(&self) -> int {
        (self.heap.end_addr() - self.heap.head_addr()) / (PAGE_SIZE as int)
    }

    /// `pa` is a root page table that this memory handed out.
    pub closed spec fn is_root(&self, pa: usize) -> bool {
        self.holds_frame(pa as int) && self.kinds@[self.index_of(pa as int)] == FrameKind::Root
    }

    spec fn l1_entry(&self, root: usize, va: usize) -> u32 {
        self.table(self.index_of(root as int))[vpn1(va) as int]
    }

    /// The root table `root` has a level-0 table for the 4 MiB region of `va`.
    pub closed spec fn has_table(&self, root: usize, va: usize) -> bool {
        (self.l1_entry(root, va) & PAGE_V) != 0
    }

    /// The valid leaf entry that maps the page of `va` under `root`, if any.
    pub closed spec fn translate(&self, root: usize, va: usize) -> Option<u32> {
        if self.has_table(root, va) {
            let e = self.table(self.index_of(table_addr(self.l1_entry(root, va))))[vpn0(va) as int];
            if (e & PAGE_V) != 0 {
                Some(e)
            } else {
                None
            }
        } else {
            None
        }
    }

    spec fn frames_extend(&self, old: &PhysMemory, num: int, kind: FrameKind) -> bool {
        &&& self.kernel_base == old.kernel_base
        &&& self.heap.start_addr() == old.heap.start_addr()
        &&& self.heap.end_addr() == old.heap.end_addr()
        &&& self.heap.head_addr() == old.heap.head_addr() + num * PAGE_SIZE
        &&& self.frames@.len() == old.frames@.len() + num
        &&& self.kinds@.len() == self.frames@.len()
        &&& forall|i: int| 0 <= i < old.frames@.len() ==> #[trigger] self.table(i) == old.table(i)
        &&& forall|i: int| 0 <= i < old.frames@.len() ==> #[trigger] self.kinds@[i] == old.kinds@[i]
        &&& forall|i: int|
            old.frames@.len() <= i < self.frames@.len() ==> #[trigger] self.kinds@[i] == kind
        &&& forall|i: int, j: int|
            old.frames@.len() <= i < self.frames@.len() && 0 <= j < PTES_PER_TABLE ==> #[trigger] self.table(i)[j] == 0
        &&& forall|i: int| 0 <= i < self.frames@.len() ==> (#[trigger] self.frames@[i])@.len() == PTES_PER_TABLE
    }

    proof fn lemma_extend(&self, old: &PhysMemory, num: int, kind: FrameKind)
        requires
            old.wf(),
            num >= 0,
            self.frames_extend(old, num, kind),
            self.heap.wf(),
        ensures
            self.wf(),
            forall|r: usize, va: usize| old.is_root(r) ==> #[trigger] self.translate(r, va) == old.translate(r, va),
            forall|r: usize, va: usize| old.is_root(r) ==> #[trigger] self.has_table(r, va) == old.has_table(r, va),
            forall|r: usize| #[trigger] self.is_root(r) == (old.is_root(r) || (kind == FrameKind::Root
                && old.next_page() <= r < self.next_page() && r % PAGE_SIZE == 0)),
    {
        let n = old.frames@.len();
        assert(0u32 & PAGE_V == 0) by (bit_vector);
        assert((self.heap.head_addr() - self.heap.start_addr()) / (PAGE_SIZE as int) == n + num) by {
            assert(self.heap.head_addr() - self.heap.start_addr() == (old.heap.head_addr() - old.heap.start_addr()) + num * PAGE_SIZE);
            assert((old.heap.head_addr() - old.heap.start_addr()) % (PAGE_SIZE as int) == 0);
            vstd::arithmetic::div_mod::lemma_fundamental_div_mod(old.heap.head_addr() - old.heap.start_addr(), PAGE_SIZE as int);
        }
        assert(self.heap.head_addr() % PAGE_SIZE == 0) by {
            assert(self.heap.head_addr() == old.heap.head_addr() + num * PAGE_SIZE);
            vstd::arithmetic::div_mod::lemma_mod_multiples_vanish(num, old.heap.head_addr() as int, PAGE_SIZE as int);
        }
        assert forall|i: int, j: int|
            0 <= i < self.frames@.len() && 0 <= j < PTES_PER_TABLE && self.kinds@[i] == FrameKind::Root
                implies #[trigger] self.root_entry_ok(i, j) by {
            if i < n {
                assert(old.root_entry_ok(i, j));
                if (self.table(i)[j] & PAGE_V) != 0 {
                    let t = table_addr(self.table(i)[j]);
                    assert(old.holds_frame(t));
                    assert(self.index_of(t) == old.index_of(t));
                }
            }
        }
        assert forall|i1: int, j1: int, i2: int, j2: int|
            0 <= i1 < self.frames@.len() && 0 <= j1 < PTES_PER_TABLE && 0 <= i2 < self.frames@.len() && 0
                <= j2 < PTES_PER_TABLE && self.kinds@[i1] == FrameKind::Root && self.kinds@[i2]
                == FrameKind::Root && (#[trigger] self.table(i1)[j1] & PAGE_V) != 0 && (
            #[trigger] self.table(i2)[j2] & PAGE_V) != 0 && table_addr(self.table(i1)[j1])
                == table_addr(self.table(i2)[j2]) implies i1 == i2 && j1 == j2 by {
            assert(i1 < n && i2 < n);
            assert(old.table(i1)[j1] == self.table(i1)[j1]);
            assert(old.table(i2)[j2] == self.table(i2)[j2]);
        }
        assert forall|r: usize, va: usize| old.is_root(r) implies #[trigger] self.translate(r, va) == old.translate(r, va)
            && self.has_table(r, va) == old.has_table(r, va) by {
            let ri = old.index_of(r as int);
            assert(self.index_of(r as int) == ri);
            assert(0 <= ri < n);
            assert(self.table(ri) == old.table(ri));
            let j = vpn1(va) as int;
            assert(0 <= j < PTES_PER_TABLE) by {
                assert(((va as u32) >> 22u32) & 0x3ffu32 <= 0x3ffu32) by (bit_vector);
            }
            if old.has_table(r, va) {
                assert(old.root_entry_ok(ri, j));
                let t = table_addr(old.l1_entry(r, va));
                assert(self.index_of(t) == old.index_of(t));
                assert(self.table(old.index_of(t)) == old.table(old.index_of(t)));
            }
        }
        assert forall|r: usize| #[trigger] self.is_root(r) == (old.is_root(r) || (kind == FrameKind::Root
            && old.next_page() <= r < self.next_page() && r % PAGE_SIZE == 0)) by {
            if old.holds_frame(r as int) {
                assert(self.index_of(r as int) < n);
            }
            if old.next_page() <= r < self.next_page() && r % PAGE_SIZE == 0 {
                assert(self.index_of(r as int) >= n) by {
                    assert(old.heap.head_addr() - old.heap.start_addr() == n * PAGE_SIZE) by {
                        vstd::arithmetic::div_mod::lemma_fundamental_div_mod(old.heap.head_addr() - old.heap.start_addr(), PAGE_SIZE as int);
                    }
                    vstd::arithmetic::div_mod::lemma_div_is_ordered(n * PAGE_SIZE, r - old.heap.start_addr(), PAGE_SIZE as int);
                    vstd::arithmetic::div_mod::lemma_div_multiples_vanish(n as int, PAGE_SIZE as int);
                }
                assert(self.index_of(r as int) < n + num) by {
                    vstd::arithmetic::div_mod::lemma_div_is_ordered(r - self.heap.start_addr(), self.heap.head_addr() - self.heap.start_addr(), PAGE_SIZE as int);
                }
            }
        }
    }

    /// A page table of zeros.
    fn zero_table() -> (t: Vec<u32>)
        ensures
            t@.len() == PTES_PER_TABLE,
            forall|j: int| 0 <= j < PTES_PER_TABLE ==> t@[j] == 0,
    {
        let mut t: Vec<u32> = Vec::new();
        while t.len() < PTES_PER_TABLE
            invariant
                t@.len() <= PTES_PER_TABLE,
                forall|j: int| 0 <= j < t@.len() ==> t@[j] == 0,
            decreases PTES_PER_TABLE - t@.len(),
        {
            t.push(0);
        }
        t
    }

    /// Hands out `num` zeroed pages for use as `kind`.
    fn alloc_frames(&mut self, num: usize, kind: Ghost<FrameKind>) -> (pa: usize)
        requires
            old(self).wf(),
            1 <= num <= old(self).free_pages(),
        ensures
            pa == old(self).next_page(),
            final(self).frames_extend(old(self), num as int, kind@),
            final(self).heap.wf(),
    {
        let ghost n = self.frames@.len();
        proof {
            assert(num * PAGE_SIZE <= self.heap.end_addr() - self.heap.head_addr()) by {
                vstd::arithmetic::div_mod::lemma_fundamental_div_mod(self.heap.end_addr() - self.heap.head_addr(), PAGE_SIZE as int);
                vstd::arithmetic::mul::lemma_mul_inequality(num as int, self.free_pages(), PAGE_SIZE as int);
            }
        }
        let r = self.heap.allocate(num * PAGE_SIZE, PAGE_SIZE);
        let pa = r.unwrap();
        let ghost h = self.heap;
        let ghost f0 = self.frames@;
        let mut k: usize = 0;
        while k < num
            invariant
                0 <= k <= num,
                self.heap == h,
                h.wf(),
                h.start_addr() == old(self).heap.start_addr(),
                h.end_addr() == old(self).heap.end_addr(),
                h.head_addr() == old(self).heap.head_addr() + num * PAGE_SIZE,
                pa == old(self).heap.head_addr(),
                f0 == old(self).frames@,
                self.kernel_base == old(self).kernel_base,
                self.frames@.len() == n + k,
                self.kinds@.len() == n + k,
                n == old(self).frames@.len(),
                old(self).wf(),
                forall|i: int| 0 <= i < n ==> #[trigger] self.table(i) == old(self).table(i),
                forall|i: int| 0 <= i < n ==> #[trigger] self.kinds@[i] == old(self).kinds@[i],
                forall|i: int| n <= i < n + k ==> #[trigger] self.kinds@[i] == kind@,
                forall|i: int, j: int| n <= i < n + k && 0 <= j < PTES_PER_TABLE ==> #[trigger] self.table(i)[j] == 0,
                forall|i: int| 0 <= i < n + k ==> (#[trigger] self.frames@[i])@.len() == PTES_PER_TABLE,
            decreases num - k,
        {
            let t = PhysMemory::zero_table();
            let ghost before = self.frames@;
            let ghost pre = self.frames@.len();
            assert forall|i: int, j: int| n <= i < n + k && 0 <= j < PTES_PER_TABLE implies before[i]@[j] == 0 by {
                assert(self.table(i)[j] == 0);
            }
            assert forall|i: int| 0 <= i < n implies before[i]@ == old(self).table(i) by {
                assert(self.table(i) == old(self).table(i));
            }
            self.frames.push(t);
            self.kinds = Ghost(self.kinds@.push(kind@));
            assert(self.frames@ == before.push(t));
            assert forall|i: int| 0 <= i < n + k implies #[trigger] self.table(i) == before[i]@ by {}
            assert forall|j: int| 0 <= j < PTES_PER_TABLE implies #[trigger] self.table((n + k) as int)[j] == 0 by {}
            k = k + 1;
        }
        pa
    }

    fn write_entry(&mut self, i: usize, j: usize, v: u32)
        requires
            i < old(self).frames@.len(),
            j < old(self).frames@[i as int]@.len(),
        ensures
            final(self).kernel_base == old(self).kernel_base,
            final(self).heap == old(self).heap,
            final(self).kinds == old(self).kinds,
            final(self).frames@.len() == old(self).frames@.len(),
            final(self).table(i as int) == old(self).table(i as int).update(j as int, v),
            forall|k: int| 0 <= k < final(self).frames@.len() && k != i ==> #[trigger] final(self).table(k) == old(self).table(k),
    {
        self.frames[i].set(j, v);
    }

    /// RAM with the kernel image at `kernel_base` and the free window `[free_ram, free_ram_end)`,
    /// all page-aligned and below 4 GiB.
    pub fn new(kernel_base: usize, free_ram: usize, free_ram_end: usize) -> (r: PhysMemory)
        requires
            kernel_base % PAGE_SIZE == 0,
            free_ram % PAGE_SIZE == 0,
            free_ram_end % PAGE_SIZE == 0,
            kernel_base <= free_ram <= free_ram_end <= u32::MAX,
        ensures
            r.wf(),
            r.kernel_start() == kernel_base,
            r.ram_start() == free_ram,
            r.ram_end() == free_ram_end,
            r.next_page() == free_ram,
            r.free_pages() == (free_ram_end - free_ram) / (PAGE_SIZE as int),
            forall|pa: usize| !r.is_root(pa),
    {
        PhysMemory {
            kernel_base,
            heap: BumpAllocator::new(free_ram, free_ram_end),
            frames: Vec::new(),
            kinds: Ghost(Seq::empty()),
        }
    }
}


impl PhysMemory {
    /// Same kernel image and free window.
    pub open spec fn same_layout(&self, old: &PhysMemory) -> bool {
        &&& self.kernel_start() == old.kernel_start()
        &&& self.ram_start() == old.ram_start()
        &&& self.ram_end() == old.ram_end()
    }

    /// Every mapping and every level-0 table of the roots of `old` is still there.
    pub open spec fn keeps_mappings(&self, old: &PhysMemory) -> bool {
        &&& forall|r: usize, va: usize| old.is_root(r) ==> #[trigger] self.translate(r, va) == old.translate(r, va)
        &&& forall|r: usize, va: usize| old.is_root(r) ==> #[trigger] self.has_table(r, va) == old.has_table(r, va)
    }

    /// Address of the next page to be handed out.
    pub fn next_free_page(&self) -> (r: usize)
        ensures
            r == self.next_page(),
    {
        self.heap.head
    }

    /// Free pages: those between the next page and the end of the window.
    pub proof fn lemma_free_pages(&self)
        requires
            self.wf(),
        ensures
            self.free_pages() == (self.ram_end() - self.next_page()) / (PAGE_SIZE as int),
            self.ram_start() <= self.next_page() <= self.ram_end(),
            self.next_page() % PAGE_SIZE == 0,
    {
    }

    /// Number of pages still free.
    pub fn free_page_count(&self) -> (r: usize)
        requires
            self.wf(),
        ensures
            r == self.free_pages(),
    {
        (self.heap.end - self.heap.head) / PAGE_SIZE
    }

    /// Level-0 tables that an identity map of the kernel range may need.
    pub fn kernel_tables_needed_count(&self) -> (r: usize)
        requires
            self.wf(),
        ensures
            r == self.kernel_tables_needed(),
    {
        proof {
            self.lemma_kernel_tables_needed();
        }
        if self.kernel_base < self.heap.end {
            let hi = (((self.heap.end - PAGE_SIZE) as u32) >> 22) & 0x3ff;
            let lo = ((self.kernel_base as u32) >> 22) & 0x3ff;
            proof {
                lemma_vpn1_step(self.kernel_base, (self.heap.end - PAGE_SIZE) as usize);
                lemma_vpn_range((self.heap.end - PAGE_SIZE) as usize);
                assert(hi == vpn1((self.heap.end - PAGE_SIZE) as usize));
                assert(lo == vpn1(self.kernel_base));
            }
            (hi - lo) as usize + 1
        } else {
            0
        }
    }

    /// `pa` is a page that this memory handed out.
    pub closed spec fn holds_page(&self, pa: usize) -> bool {
        self.holds_frame(pa as int)
    }

    /// Word `j` of the page at `pa`.
    pub closed spec fn word(&self, pa: usize, j: int) -> u32 {
        self.table(self.index_of(pa as int))[j]
    }

    /// Reads entry `index` of the page table at `table`.
    pub fn read_entry(&self, table: PhysAddr, index: usize) -> (r: u32)
        requires
            self.wf(),
            self.holds_page(table.value()),
            index < PTES_PER_TABLE,
        ensures
            r == self.word(table.value(), index as int),
    {
        let i = (table.as_usize() - self.heap.start) / PAGE_SIZE;
        proof {
            assert(i < self.frames@.len()) by {
                vstd::arithmetic::div_mod::lemma_div_is_ordered(
                    table.value() - self.heap.start_addr(),
                    self.heap.head_addr() - self.heap.start_addr() - 1,
                    PAGE_SIZE as int,
                );
                let n = self.frames@.len() as int;
                vstd::arithmetic::div_mod::lemma_fundamental_div_mod(self.heap.head_addr() - self.heap.start_addr(), PAGE_SIZE as int);
                vstd::arithmetic::div_mod::lemma_fundamental_div_mod(n * PAGE_SIZE - 1, PAGE_SIZE as int);
            }
        }
        self.frames[i][index]
    }

    /// Allocates a zeroed root page table.
    pub fn new_page_table(&mut self) -> (r: PhysAddr)
        requires
            old(self).wf(),
            old(self).free_pages() >= 1,
        ensures
            final(self).wf(),
            final(self).same_layout(old(self)),
            final(self).keeps_mappings(old(self)),
            r.value() == old(self).next_page(),
            final(self).next_page() == old(self).next_page() + PAGE_SIZE,
            final(self).free_pages() == old(self).free_pages() - 1,
            final(self).is_root(r.value()),
            !old(self).is_root(r.value()),
            forall|x: usize| #[trigger] final(self).is_root(x) == (old(self).is_root(x) || x == r.value()),
            forall|va: usize| !#[trigger] final(self).has_table(r.value(), va),
            final(self).holds_page(r.value()),
            forall|j: int| 0 <= j < PTES_PER_TABLE ==> #[trigger] final(self).word(r.value(), j) == 0,
    {
        let pa = self.alloc_frames(1, Ghost(FrameKind::Root));
        proof {
            self.lemma_extend(old(self), 1, FrameKind::Root);
            lemma_free_pages_step(old(self).heap.end_addr() as int, old(self).heap.head_addr() as int, 1);
            let n = old(self).frames@.len();
            assert(old(self).heap.head_addr() - old(self).heap.start_addr() == n * PAGE_SIZE) by {
                vstd::arithmetic::div_mod::lemma_fundamental_div_mod(old(self).heap.head_addr() - old(self).heap.start_addr(), PAGE_SIZE as int);
            }
            assert(self.index_of(pa as int) == n as int) by {
                vstd::arithmetic::div_mod::lemma_div_multiples_vanish(n as int, PAGE_SIZE as int);
            }
            assert forall|j: int| 0 <= j < PTES_PER_TABLE implies #[trigger] self.word(pa, j) == 0 by {
                assert(self.table(n as int)[j] == 0);
            }
            assert forall|va: usize| !#[trigger] self.has_table(pa, va) by {
                assert(vpn1(va) < 1024) by {
                    assert(((va as u32) >> 22u32) & 0x3ffu32 < 1024u32) by (bit_vector);
                }
                assert(self.table(n as int)[vpn1(va) as int] == 0);
                assert(0u32 & PAGE_V == 0) by (bit_vector);
            }
        }
        PhysAddr::from_usize(pa)
    }
}

proof fn lemma_free_pages_step(end: int, head: int, num: int)
    requires
        head <= end,
        head % (PAGE_SIZE as int) == 0,
        end % (PAGE_SIZE as int) == 0,
        num >= 0,
        head + num * PAGE_SIZE <= end,
    ensures
        (end - (head + num * PAGE_SIZE)) / (PAGE_SIZE as int) == (end - head) / (PAGE_SIZE as int) - num,
{
    vstd::arithmetic::div_mod::lemma_hoist_over_denominator(end - head - num * PAGE_SIZE, num, PAGE_SIZE as nat);
}

/// Allocates `num` contiguous zeroed pages and returns the first one's address.
pub fn alloc_pages(mem: &mut PhysMemory, num: usize) -> (r: PhysAddr)
    requires
        old(mem).wf(),
        1 <= num <= old(mem).free_pages(),
    ensures
        final(mem).wf(),
        final(mem).same_layout(old(mem)),
        final(mem).keeps_mappings(old(mem)),
        forall|x: usize| #[trigger] final(mem).is_root(x) == old(mem).is_root(x),
        r.value() == old(mem).next_page(),
        r.value() % PAGE_SIZE == 0,
        old(mem).ram_start() <= r.value(),
        r.value() + num * PAGE_SIZE <= old(mem).ram_end(),
        final(mem).next_page() == old(mem).next_page() + num * PAGE_SIZE,
        final(mem).free_pages() == old(mem).free_pages() - num,
        forall|k: int, j: int|
            0 <= k < num && 0 <= j < PTES_PER_TABLE ==> final(mem).holds_page((r.value() + k * PAGE_SIZE) as usize)
                && #[trigger] final(mem).word((r.value() + k * PAGE_SIZE) as usize, j) == 0,
{
    let pa = mem.alloc_frames(num, Ghost(FrameKind::Data));
    proof {
        mem.lemma_extend(old(mem), num as int, FrameKind::Data);
        lemma_free_pages_step(old(mem).heap.end_addr() as int, old(mem).heap.head_addr() as int, num as int);
        let n = old(mem).frames@.len() as int;
        let start = old(mem).heap.start_addr() as int;
        assert(old(mem).heap.head_addr() - start == n * PAGE_SIZE) by {
            vstd::arithmetic::div_mod::lemma_fundamental_div_mod(old(mem).heap.head_addr() - start, PAGE_SIZE as int);
        }
        assert forall|k: int, j: int|
            0 <= k < num && 0 <= j < PTES_PER_TABLE implies mem.holds_page((pa + k * PAGE_SIZE) as usize)
                && #[trigger] mem.word((pa + k * PAGE_SIZE) as usize, j) == 0 by {
            let a = pa + k * PAGE_SIZE;
            assert(a - start == (n + k) * PAGE_SIZE) by (nonlinear_arith)
                requires
                    a == pa + k * PAGE_SIZE,
                    pa - start == n * PAGE_SIZE,
            ;
            assert(k * PAGE_SIZE < num * PAGE_SIZE) by (nonlinear_arith)
                requires
                    k < num,
            ;
            vstd::arithmetic::div_mod::lemma_div_multiples_vanish(n + k, PAGE_SIZE as int);
            vstd::arithmetic::div_mod::lemma_mod_multiples_vanish(n + k, start, PAGE_SIZE as int);
            assert(mem.index_of(a) == n + k);
            assert(mem.table(n + k)[j] == 0);
        }
    }
    PhysAddr::from_usize(pa)
}


proof fn lemma_pte_bits(ppn: u32, flags: u32)
    requires
        ppn < 0x100000,
        flags < 0x400,
    ensures
        ((ppn << 10u32) | flags | PAGE_V) >> 10u32 == ppn,
        (((ppn << 10u32) | flags | PAGE_V) & PAGE_V) != 0,
{
    assert(((ppn << 10u32) | flags | 1u32) >> 10u32 == ppn) by (bit_vector)
        requires
            ppn < 0x100000u32,
            flags < 0x400u32,
    ;
    assert((((ppn << 10u32) | flags | 1u32) & 1u32) != 0) by (bit_vector);
}

proof fn lemma_vpn_range(va: usize)
    ensures
        vpn1(va) < 1024,
        vpn0(va) < 1024,
{
    let x = va as u32;
    assert((x >> 22u32) & 0x3ffu32 < 1024u32) by (bit_vector);
    assert((x >> 12u32) & 0x3ffu32 < 1024u32) by (bit_vector);
}

proof fn lemma_index_injective(a: int, b: int, start: int)
    requires
        a % (PAGE_SIZE as int) == 0,
        b % (PAGE_SIZE as int) == 0,
        start % (PAGE_SIZE as int) == 0,
        start <= a,
        start <= b,
        a != b,
    ensures
        (a - start) / (PAGE_SIZE as int) != (b - start) / (PAGE_SIZE as int),
{
    vstd::arithmetic::div_mod::lemma_sub_mod_noop(a, start, PAGE_SIZE as int);
    vstd::arithmetic::div_mod::lemma_sub_mod_noop(b, start, PAGE_SIZE as int);
    vstd::arithmetic::div_mod::lemma_fundamental_div_mod(a - start, PAGE_SIZE as int);
    vstd::arithmetic::div_mod::lemma_fundamental_div_mod(b - start, PAGE_SIZE as int);
}

/// Sv32 entry for page `pa` with `flags`.
fn make_pte(pa: usize, flags: u32) -> (r: u32)
    requires
        pa <= u32::MAX,
        pa % PAGE_SIZE == 0,
        flags < 0x400,
    ensures
        r == pte_for(pa, flags),
        (r & PAGE_V) != 0,
        table_addr(r) == pa,
{
    let ppn = (pa / PAGE_SIZE) as u32;
    proof {
        lemma_pte_bits(ppn, flags);
    }
    (ppn << 10) | flags | PAGE_V
}

impl PhysMemory {
    /// Index of the level-0 table for the region of `va` under root `pt`, allocated and hooked
    /// into the root table when there is none yet.
    fn table_for(&mut self, pt: usize, va: usize) -> (leaf_idx: usize)
        requires
            old(self).wf(),
            old(self).is_root(pt),
            va <= u32::MAX,
            old(self).has_table(pt, va) || old(self).free_pages() >= 1,
        ensures
            final(self).wf(),
            final(self).same_layout(old(self)),
            forall|x: usize| #[trigger] final(self).is_root(x) == old(self).is_root(x),
            final(self).has_table(pt, va),
            leaf_idx < final(self).frames@.len(),
            final(self).kinds@[leaf_idx as int] == FrameKind::Leaf,
            final(self).index_of(table_addr(final(self).l1_entry(pt, va))) == leaf_idx,
            table_addr(final(self).l1_entry(pt, va)) == final(self).heap.start_addr() + leaf_idx * PAGE_SIZE,
            old(self).has_table(pt, va) ==> *final(self) == *old(self),
            !old(self).has_table(pt, va) ==> final(self).l1_entry(pt, va) == pte_for(old(self).next_page(), 0),
            forall|j: int|
                0 <= j < PTES_PER_TABLE && j != vpn1(va) ==> #[trigger] final(self).table(old(self).index_of(pt as int))[j]
                    == old(self).table(old(self).index_of(pt as int))[j],
            !old(self).has_table(pt, va) ==> forall|j: int| 0 <= j < PTES_PER_TABLE ==> #[trigger] final(self).table(leaf_idx as int)[j] == 0,
            forall|r: usize, x: usize|
                old(self).is_root(r) && !(r == pt && vpn1(x) == vpn1(va)) ==> #[trigger] final(self).translate(r, x)
                == old(self).translate(r, x) && final(self).has_table(r, x) == old(self).has_table(r, x),
            final(self).next_page() == old(self).next_page() + if old(self).has_table(pt, va) {
                0int
            } else {
                PAGE_SIZE as int
            },
            final(self).free_pages() == old(self).free_pages() - if old(self).has_table(pt, va) {
                0int
            } else {
                1int
            },
    {
        let v = va as u32;
        let l1 = ((v >> 22) & 0x3ff) as usize;
        let root_idx = (pt - self.heap.start) / PAGE_SIZE;
        proof {
            lemma_vpn_range(va);
            assert(l1 == vpn1(va));
        }
    if self.frames[root_idx][l1] & PAGE_V == 0 {
        let leaf = self.alloc_frames(1, Ghost(FrameKind::Leaf));
        proof {
            self.lemma_extend(old(self), 1, FrameKind::Leaf);
            lemma_free_pages_step(old(self).heap.end_addr() as int, old(self).heap.head_addr() as int, 1);
        }
        let ghost m1 = *self;
        let pte = make_pte(leaf, 0);
        self.write_entry(root_idx, l1, pte);
        proof {
            let n = old(self).frames@.len() as int;
            assert(old(self).heap.head_addr() - old(self).heap.start_addr() == n * PAGE_SIZE) by {
                vstd::arithmetic::div_mod::lemma_fundamental_div_mod(old(self).heap.head_addr() - old(self).heap.start_addr(), PAGE_SIZE as int);
            }
            assert(self.index_of(leaf as int) == n) by {
                vstd::arithmetic::div_mod::lemma_div_multiples_vanish(n, PAGE_SIZE as int);
            }
            assert(self.kinds@[n] == FrameKind::Leaf);
            assert(self.holds_frame(leaf as int));
            assert forall|i: int, j: int|
                0 <= i < self.frames@.len() && 0 <= j < PTES_PER_TABLE && self.kinds@[i] == FrameKind::Root
                    implies #[trigger] self.root_entry_ok(i, j) by {
                if !(i == root_idx && j == l1) {
                    assert(m1.root_entry_ok(i, j));
                    assert(self.table(i)[j] == m1.table(i)[j]);
                }
            }
            assert forall|i: int, j: int|
                0 <= i < n && 0 <= j < PTES_PER_TABLE && self.kinds@[i] == FrameKind::Root && (self.table(i)[j] & PAGE_V) != 0 && !(i == root_idx && j == l1)
                    implies self.index_of(table_addr(#[trigger] self.table(i)[j])) < n by {
                assert(self.table(i)[j] == old(self).table(i)[j]);
                assert(old(self).root_entry_ok(i, j));
                let t = table_addr(old(self).table(i)[j]);
                assert(old(self).holds_frame(t));
                assert(old(self).index_of(t) < n) by {
                    vstd::arithmetic::div_mod::lemma_div_is_ordered(t - old(self).heap.start_addr(), old(self).heap.head_addr() - old(self).heap.start_addr() - 1, PAGE_SIZE as int);
                    vstd::arithmetic::div_mod::lemma_div_is_ordered(n * PAGE_SIZE - 1, n * PAGE_SIZE, PAGE_SIZE as int);
                    vstd::arithmetic::div_mod::lemma_div_multiples_vanish(n, PAGE_SIZE as int);
                    assert((n * PAGE_SIZE - 1) / (PAGE_SIZE as int) < n) by {
                        vstd::arithmetic::div_mod::lemma_fundamental_div_mod(n * PAGE_SIZE - 1, PAGE_SIZE as int);
                    }
                }
            }
            assert forall|i1: int, j1: int, i2: int, j2: int|
                0 <= i1 < self.frames@.len() && 0 <= j1 < PTES_PER_TABLE && 0 <= i2 < self.frames@.len() && 0
                    <= j2 < PTES_PER_TABLE && self.kinds@[i1] == FrameKind::Root && self.kinds@[i2]
                    == FrameKind::Root && (#[trigger] self.table(i1)[j1] & PAGE_V) != 0 && (
                #[trigger] self.table(i2)[j2] & PAGE_V) != 0 && table_addr(self.table(i1)[j1])
                    == table_addr(self.table(i2)[j2]) implies i1 == i2 && j1 == j2 by {
                assert(i1 < n && i2 < n);
                if i1 == root_idx && j1 == l1 && !(i2 == root_idx && j2 == l1) {
                    assert(self.index_of(table_addr(self.table(i2)[j2])) < n);
                } else if i2 == root_idx && j2 == l1 && !(i1 == root_idx && j1 == l1) {
                    assert(self.index_of(table_addr(self.table(i1)[j1])) < n);
                } else if !(i1 == root_idx && j1 == l1) && !(i2 == root_idx && j2 == l1) {
                    assert(m1.table(i1)[j1] == self.table(i1)[j1]);
                    assert(m1.table(i2)[j2] == self.table(i2)[j2]);
                }
            }
            assert forall|i: int| 0 <= i < self.frames@.len() implies (#[trigger] self.frames@[i])@.len() == PTES_PER_TABLE by {
                assert(self.table(i).len() == m1.table(i).len());
            }
            assert(self.wf());
            assert forall|r: usize, x: usize|
                old(self).is_root(r) && !(r == pt && vpn1(x) == vpn1(va)) implies #[trigger] self.translate(r, x)
                == old(self).translate(r, x) && self.has_table(r, x) == old(self).has_table(r, x) by {
                let ri = old(self).index_of(r as int);
                lemma_vpn_range(x);
                let j = vpn1(x) as int;
                assert(m1.is_root(r));
                assert(self.table(ri)[j] == m1.table(ri)[j]);
                if m1.has_table(r, x) {
                    assert(m1.root_entry_ok(ri, j));
                    let t = table_addr(m1.l1_entry(r, x));
                    assert(self.table(m1.index_of(t)) == m1.table(m1.index_of(t)));
                }
            }
        }
    }

        proof {
            assert(self.wf());
            assert(self.has_table(pt, va));
            assert(self.root_entry_ok(root_idx as int, l1 as int));
        }
        let e1 = self.frames[root_idx][l1];
        let table0 = ((e1 >> 10) as usize) * PAGE_SIZE;
        proof {
            assert(table0 == table_addr(e1));
            vstd::arithmetic::div_mod::lemma_sub_mod_noop(table0 as int, self.heap.start as int, PAGE_SIZE as int);
            vstd::arithmetic::div_mod::lemma_fundamental_div_mod(table0 - self.heap.start, PAGE_SIZE as int);
        }
        (table0 - self.heap.start) / PAGE_SIZE
    }
}

/// Maps the page at `vaddr` to the page at `paddr` with `flags` under the root table
/// `page_table`, allocating the level-0 table when the region has none yet.
pub fn map_page(mem: &mut PhysMemory, page_table: PhysAddr, vaddr: VirtAddr, paddr: PhysAddr, flags: u32)
    requires
        old(mem).wf(),
        old(mem).is_root(page_table.value()),
        vaddr.value() % PAGE_SIZE == 0,
        paddr.value() % PAGE_SIZE == 0,
        vaddr.value() <= u32::MAX,
        paddr.value() <= u32::MAX,
        flags < 0x400,
        old(mem).has_table(page_table.value(), vaddr.value()) || old(mem).free_pages() >= 1,
    ensures
        final(mem).wf(),
        final(mem).same_layout(old(mem)),
        forall|x: usize| #[trigger] final(mem).is_root(x) == old(mem).is_root(x),
        final(mem).translate(page_table.value(), vaddr.value()) == Some(pte_for(paddr.value(), flags)),
        final(mem).has_table(page_table.value(), vaddr.value()),
        old(mem).has_table(page_table.value(), vaddr.value()) ==> final(mem).word(page_table.value(), vpn1(vaddr.value()) as int)
            == old(mem).word(page_table.value(), vpn1(vaddr.value()) as int),
        !old(mem).has_table(page_table.value(), vaddr.value()) ==> final(mem).word(page_table.value(), vpn1(vaddr.value()) as int)
            == pte_for(old(mem).next_page(), 0),
        forall|j: int|
            0 <= j < PTES_PER_TABLE && j != vpn1(vaddr.value()) ==> #[trigger] final(mem).word(page_table.value(), j)
                == old(mem).word(page_table.value(), j),
        final(mem).word(
            table_addr(final(mem).word(page_table.value(), vpn1(vaddr.value()) as int)) as usize,
            vpn0(vaddr.value()) as int,
        ) == pte_for(paddr.value(), flags),
        forall|r: usize, va: usize|
            old(mem).is_root(r) && !(r == page_table.value() && same_page(va, vaddr.value()))
                ==> #[trigger] final(mem).translate(r, va) == old(mem).translate(r, va),
        forall|r: usize, va: usize|
            old(mem).is_root(r) && old(mem).has_table(r, va) ==> #[trigger] final(mem).has_table(r, va),
        final(mem).next_page() == old(mem).next_page() + if old(mem).has_table(
            page_table.value(),
            vaddr.value(),
        ) {
            0int
        } else {
            PAGE_SIZE as int
        },
        final(mem).free_pages() == old(mem).free_pages() - if old(mem).has_table(
            page_table.value(),
            vaddr.value(),
        ) {
            0int
        } else {
            1int
        },
{
    let ghost pt = page_table.value();
    let ghost va = vaddr.value();
    let root = page_table.as_usize();
    let v = vaddr.as_usize() as u32;
    let l0 = ((v >> 12) & 0x3ff) as usize;
    let ghost root_idx = mem.index_of(pt as int);
    proof {
        lemma_vpn_range(va);
        assert(l0 == vpn0(va));
    }
    let leaf_idx = mem.table_for(root, vaddr.as_usize());
    let ghost m2 = *mem;
    let ghost table0 = table_addr(mem.l1_entry(pt, va));
    let pte = make_pte(paddr.as_usize(), flags);
    mem.write_entry(leaf_idx, l0, pte);
    proof {
        assert(m2.is_root(pt));
        assert(m2.index_of(pt as int) == root_idx);
        assert(root_idx != leaf_idx as int);
        assert forall|x: usize| #[trigger] mem.is_root(x) == m2.is_root(x) by {}
        // a root's own table is untouched: only a level-0 table was written
        assert forall|r: usize| #[trigger] m2.is_root(r) implies mem.table(m2.index_of(r as int)) == m2.table(
            m2.index_of(r as int),
        ) by {
            assert(m2.index_of(r as int) != leaf_idx as int);
        }
        assert forall|i: int, j: int|
            0 <= i < mem.frames@.len() && 0 <= j < PTES_PER_TABLE && mem.kinds@[i] == FrameKind::Root
                implies #[trigger] mem.root_entry_ok(i, j) by {
            assert(m2.root_entry_ok(i, j));
            assert(mem.table(i) == m2.table(i));
        }
        assert forall|i: int| 0 <= i < mem.frames@.len() implies (#[trigger] mem.frames@[i])@.len() == PTES_PER_TABLE by {
            assert(mem.table(i).len() == m2.table(i).len());
        }
        assert forall|i1: int, j1: int, i2: int, j2: int|
            0 <= i1 < mem.frames@.len() && 0 <= j1 < PTES_PER_TABLE && 0 <= i2 < mem.frames@.len() && 0
                <= j2 < PTES_PER_TABLE && mem.kinds@[i1] == FrameKind::Root && mem.kinds@[i2]
                == FrameKind::Root && (#[trigger] mem.table(i1)[j1] & PAGE_V) != 0 && (
            #[trigger] mem.table(i2)[j2] & PAGE_V) != 0 && table_addr(mem.table(i1)[j1])
                == table_addr(mem.table(i2)[j2]) implies i1 == i2 && j1 == j2 by {
            assert(mem.table(i1) == m2.table(i1));
            assert(mem.table(i2) == m2.table(i2));
        }
        assert(mem.wf());
        assert(mem.translate(pt, va) == Some(pte_for(paddr.value(), flags))) by {
            assert(mem.table(root_idx as int) == m2.table(root_idx as int));
        }
        assert forall|r: usize, x: usize|
            old(mem).is_root(r) && old(mem).has_table(r, x) implies #[trigger] mem.has_table(r, x) by {
            let ri = old(mem).index_of(r as int);
            assert(m2.is_root(r));
            assert(mem.table(ri) == m2.table(ri));
            if r == pt && vpn1(x) == vpn1(va) {
                assert(m2.l1_entry(r, x) == m2.l1_entry(pt, va));
            } else {
                assert(m2.translate(r, x) == old(mem).translate(r, x));
                assert(m2.has_table(r, x));
            }
        }
        assert forall|r: usize, x: usize|
            old(mem).is_root(r) && !(r == pt && same_page(x, va))
                implies #[trigger] mem.translate(r, x) == old(mem).translate(r, x) by {
            let ri = old(mem).index_of(r as int);
            lemma_vpn_range(x);
            let j = vpn1(x) as int;
            assert(m2.is_root(r));
            assert(mem.table(ri) == m2.table(ri));
            if r == pt && vpn1(x) == vpn1(va) {
                // same level-0 table, another entry of it
                assert(vpn0(x) != vpn0(va));
                if !old(mem).has_table(r, x) {
                    assert(m2.table(leaf_idx as int)[vpn0(x) as int] == 0);
                    assert(0u32 & PAGE_V == 0) by (bit_vector);
                }
            } else {
                assert(m2.translate(r, x) == old(mem).translate(r, x));
                if m2.has_table(r, x) {
                    assert(m2.root_entry_ok(ri, j));
                    let t = table_addr(m2.l1_entry(r, x));
                    if r != pt {
                        lemma_index_injective(r as int, pt as int, m2.heap.start_addr() as int);
                    }
                    assert(ri != root_idx || j != vpn1(va) as int);
                    assert(m2.table(ri)[j] == m2.l1_entry(r, x));
                    assert(m2.table(root_idx)[vpn1(va) as int] == m2.l1_entry(pt, va));
                    assert(m2.kinds@[ri] == FrameKind::Root);
                    assert(t != table0);
                    lemma_index_injective(t, table0 as int, m2.heap.start_addr() as int);
                    assert(m2.index_of(t) != leaf_idx as int);
                    assert(mem.table(m2.index_of(t)) == m2.table(m2.index_of(t)));
                }
            }
        }
    }
}


proof fn lemma_vpn1_step(a: usize, b: usize)
    requires
        a <= u32::MAX,
        b <= u32::MAX,
    ensures
        a <= b ==> vpn1(a) <= vpn1(b),
        a + PAGE_SIZE == b ==> vpn1(b) == vpn1(a) || vpn1(b) == vpn1(a) + 1,
        a % PAGE_SIZE == 0 && b % PAGE_SIZE == 0 && a != b ==> !same_page(a, b),
{
    let x = a as u32;
    let y = b as u32;
    assert(x <= y ==> (x >> 22u32) & 0x3ffu32 <= (y >> 22u32) & 0x3ffu32) by (bit_vector);
    assert(x < 0xfffff000u32 && y == x + 4096u32 ==> ((y >> 22u32) & 0x3ffu32 == (x >> 22u32) & 0x3ffu32
        || (y >> 22u32) & 0x3ffu32 == ((x >> 22u32) & 0x3ffu32) + 1u32)) by (bit_vector);
    assert(x & 0xfffu32 == 0u32 && y & 0xfffu32 == 0u32 && (x >> 22u32) & 0x3ffu32 == (y >> 22u32)
        & 0x3ffu32 && (x >> 12u32) & 0x3ffu32 == (y >> 12u32) & 0x3ffu32 ==> x == y) by (bit_vector);
    assert(x % 4096u32 == 0u32 ==> x & 0xfffu32 == 0u32) by (bit_vector);
    assert(y % 4096u32 == 0u32 ==> y & 0xfffu32 == 0u32) by (bit_vector);
}

impl PhysMemory {
    /// Level-0 tables that an identity map of `[kernel_start, ram_end)` needs at most: one per
    /// 4 MiB region it touches.
    pub open spec fn kernel_tables_needed(&self) -> int {
        if self.kernel_start() < self.ram_end() {
            vpn1((self.ram_end() - PAGE_SIZE) as usize) - vpn1(self.kernel_start()) + 1
        } else {
            0
        }
    }

    pub proof fn lemma_kernel_tables_needed(&self)
        requires
            self.wf(),
        ensures
            self.kernel_tables_needed() >= 0,
    {
        if self.kernel_start() < self.ram_end() {
            lemma_vpn1_step(self.kernel_start(), (self.ram_end() - PAGE_SIZE) as usize);
        }
    }

    /// `root` maps every page of `[kernel_start, ram_end)` to itself, readable, writable and
    /// executable.
    pub open spec fn maps_kernel(&self, root: usize) -> bool {
        forall|va: usize|
            self.kernel_start() <= va < self.ram_end() && va % PAGE_SIZE == 0 ==> #[trigger] self.translate(
                root,
                va,
            ) == Some(pte_for(va, PAGE_R | PAGE_W | PAGE_X))
    }

    /// Identity-maps `[kernel_start, ram_end)` with `R|W|X` into the fresh root table `root`.
    pub fn map_kernel(&mut self, root: PhysAddr)
        requires
            old(self).wf(),
            old(self).is_root(root.value()),
            forall|va: usize| !#[trigger] old(self).has_table(root.value(), va),
            old(self).free_pages() >= old(self).kernel_tables_needed(),
        ensures
            final(self).wf(),
            final(self).same_layout(old(self)),
            forall|x: usize| #[trigger] final(self).is_root(x) == old(self).is_root(x),
            final(self).maps_kernel(root.value()),
            forall|r: usize, va: usize|
                old(self).is_root(r) && r != root.value() ==> #[trigger] final(self).translate(r, va)
                    == old(self).translate(r, va),
            final(self).free_pages() >= old(self).free_pages() - old(self).kernel_tables_needed(),
    {
        let ghost rt = root.value();
        let end = self.heap.end;
        let mut pa = self.kernel_base;
        let flags = PAGE_R | PAGE_W | PAGE_X;
        proof {
            assert(2u32 | 4u32 | 8u32 == 14u32) by (bit_vector);
            if pa < end {
                lemma_vpn1_step(pa, (end - PAGE_SIZE) as usize);
            }
        }
        while pa < end
            invariant
                self.wf(),
                self.same_layout(old(self)),
                forall|x: usize| #[trigger] self.is_root(x) == old(self).is_root(x),
                self.is_root(rt),
                rt == root.value(),
                end == self.ram_end(),
                flags == PAGE_R | PAGE_W | PAGE_X,
                flags < 0x400,
                self.kernel_start() <= pa,
                pa % PAGE_SIZE == 0,
                end % PAGE_SIZE == 0,
                end <= u32::MAX,
                pa <= end,
                forall|va: usize|
                    self.kernel_start() <= va < pa && va % PAGE_SIZE == 0 ==> #[trigger] self.translate(rt, va)
                        == Some(pte_for(va, flags)),
                forall|r: usize, va: usize|
                    old(self).is_root(r) && r != rt ==> #[trigger] self.translate(r, va) == old(self).translate(r, va),
                pa < end ==> self.free_pages() >= vpn1((end - PAGE_SIZE) as usize) - vpn1(pa) + if self.has_table(rt, pa) {
                    0int
                } else {
                    1int
                },
                self.free_pages() >= old(self).free_pages() - old(self).kernel_tables_needed(),
                self.free_pages() - (if pa < end { vpn1((end - PAGE_SIZE) as usize) - vpn1(pa) + if self.has_table(rt, pa) {
                    0int
                } else {
                    1int
                } } else { 0int }) >= old(self).free_pages() - old(self).kernel_tables_needed(),
            decreases end - pa,
        {
            proof {
                lemma_vpn1_step(pa, (end - PAGE_SIZE) as usize);
            }
            let ghost before = *self;
            map_page(self, root, VirtAddr::from_usize(pa), PhysAddr::from_usize(pa), flags);
            proof {
                let next = (pa + PAGE_SIZE) as usize;
                lemma_vpn1_step(pa, next);
                if next < end {
                    lemma_vpn1_step(next, (end - PAGE_SIZE) as usize);
                    if vpn1(next) == vpn1(pa) {
                        assert(self.l1_entry(rt, next) == self.l1_entry(rt, pa));
                    }
                }
                assert forall|va: usize|
                    self.kernel_start() <= va < next && va % PAGE_SIZE == 0 implies #[trigger] self.translate(rt, va)
                        == Some(pte_for(va, flags)) by {
                    if va != pa {
                        lemma_vpn1_step(va, pa);
                        assert(before.translate(rt, va) == Some(pte_for(va, flags)));
                    }
                }
            }
            pa = pa + PAGE_SIZE;
        }
    }
}

} // verus!
