use vstd::prelude::*;

verus! {

/// Size of one page of virtual or physical memory, in bytes.
pub const PAGE_SIZE: usize = 4096;

/// Largest virtual page number whose last byte still has a `usize` address.
pub const MAX_VPN: usize = usize::MAX / PAGE_SIZE;

/// Largest program image that a fresh address space is built from: one that leaves the last
/// page of the address space free, so that its pages fit.
pub const MAX_IMAGE: usize = usize::MAX - PAGE_SIZE;

/// Protection bit: the page may be read.
pub const PROT_READ: usize = 1;

/// Protection bit: the page may be written.
pub const PROT_WRITE: usize = 2;

/// Protection bit: the page may be executed.
pub const PROT_EXEC: usize = 4;

/// Number of the virtual page that holds address `va`.
pub open spec fn page_of(va: int) -> int {
    va / (PAGE_SIZE as int)
}

/// Offset of address `va` inside its page.
pub open spec fn offset_of(va: int) -> int {
    va % (PAGE_SIZE as int)
}

/// Page number of a virtual address (its floor page).
pub fn page_floor(va: usize) -> (r: usize)
    ensures
        r as int == page_of(va as int),
        r <= MAX_VPN,
{
    va / PAGE_SIZE
}

/// Offset of a virtual address inside its page.
pub fn page_offset(va: usize) -> (r: usize)
    ensures
        r as int == offset_of(va as int),
        r < PAGE_SIZE,
{
    va % PAGE_SIZE
}

/// The `n` low bytes of `x`, least significant first.
pub open spec fn le_seq(x: nat, n: nat) -> Seq<u8>
    decreases n,
{
    if n == 0 {
        Seq::empty()
    } else {
        seq![(x % 256) as u8] + le_seq(x / 256, (n - 1) as nat)
    }
}

pub proof fn lemma_le_len(x: nat, n: nat)
    ensures
        le_seq(x, n).len() == n,
    decreases n,
{
    if n > 0 {
        lemma_le_len(x / 256, (n - 1) as nat);
    }
}

/// Encodes the `n` low bytes of `x` in little-endian order.
pub fn le_bytes(x: u64, n: usize) -> (r: Vec<u8>)
    ensures
        r@ == le_seq(x as nat, n as nat),
        r@.len() == n,
{
    let mut out: Vec<u8> = Vec::new();
    let mut y: u64 = x;
    let mut i: usize = 0;
    while i < n
        invariant
            i <= n,
            out@ + le_seq(y as nat, (n - i) as nat) == le_seq(x as nat, n as nat),
        decreases n - i,
    {
        let ghost y0 = y;
        let ghost out0 = out@;
        assert(le_seq(y0 as nat, (n - i) as nat) == seq![(y0 % 256) as u8] + le_seq(
            (y0 / 256) as nat,
            (n - i - 1) as nat,
        ));
        out.push((y % 256) as u8);
        y = y / 256;
        i = i + 1;
        assert(out@ + le_seq(y as nat, (n - i) as nat) =~= out0 + le_seq(y0 as nat, (n - i + 1) as nat));
    }
    assert(out@ =~= out@ + le_seq(y as nat, 0));
    proof {
        lemma_le_len(x as nat, n as nat);
    }
    out
}

/// One mapped virtual page: the frame behind it, its protection bits and its bytes.
pub struct Page {
    pub vpn: usize,
    pub ppn: usize,
    pub prot: usize,
    pub data: Vec<u8>,
}

/// What a page-table lookup yields for a mapped page.
#[derive(Clone, Copy, Debug, PartialEq, Eq)]
pub struct PageTableEntry {
    pub ppn: usize,
    pub prot: usize,
}

impl PageTableEntry {
    pub fn readable(&self) -> (r: bool)
        ensures
            r == (self.prot & PROT_READ != 0),
    {
        self.prot & PROT_READ != 0
    }

    pub fn writable(&self) -> (r: bool)
        ensures
            r == (self.prot & PROT_WRITE != 0),
    {
        self.prot & PROT_WRITE != 0
    }

    pub fn executable(&self) -> (r: bool)
        ensures
            r == (self.prot & PROT_EXEC != 0),
    {
        self.prot & PROT_EXEC != 0
    }
}

pub open spec fn prot_readable(prot: usize) -> bool {
    prot & PROT_READ != 0
}

pub open spec fn prot_writable(prot: usize) -> bool {
    prot & PROT_WRITE != 0
}

/// A protection value is accepted when it grants something and names no unknown bit.
pub open spec fn prot_valid(prot: usize) -> bool {
    prot & !7usize == 0 && prot & 7usize != 0
}

/// Number of pages that a region of `len` bytes spans.
pub open spec fn pages_for(len: int) -> int {
    (len + PAGE_SIZE as int - 1) / (PAGE_SIZE as int)
}

/// `mmap` of `[start, start + len)` took effect: exactly the pages of that region were added,
/// each with protection `prot`, a zeroed frame, and frames numbered from `first_ppn` on.
pub open spec fn mmapped(old: MemorySet, new: MemorySet, start: int, len: int, prot: usize, first_ppn: int) -> bool {
    &&& forall|v: int|
        #[trigger] new.has(v) == (old.has(v) || page_of(start) <= v < page_of(start) + pages_for(len))
    &&& forall|v: int| #[trigger] old.has(v) ==> new.entry(v) == old.entry(v)
    &&& forall|v: int|
        page_of(start) <= v < page_of(start) + pages_for(len) ==> {
            &&& (#[trigger] new.entry(v)).prot == prot
            &&& new.entry(v).ppn == first_ppn + (v - page_of(start))
            &&& forall|o: int| 0 <= o < PAGE_SIZE ==> new.entry(v).data@[o] == 0
        }
}

/// `munmap` of `[start, start + len)` took effect: exactly the pages of that region were
/// removed, and every other page is as it was.
pub open spec fn munmapped(old: MemorySet, new: MemorySet, start: int, len: int) -> bool {
    &&& forall|v: int|
        #[trigger] new.has(v) == (old.has(v) && !(page_of(start) <= v < page_of(start) + pages_for(len)))
    &&& forall|v: int| #[trigger] new.has(v) ==> new.entry(v) == old.entry(v)
}

/// The address space of one process: its mapped pages, each with its own frame.
pub struct MemorySet {
    pub pages: Vec<Page>,
}

impl MemorySet {
    /// No virtual page is mapped twice, and each page holds a whole frame of bytes.
    pub open spec fn wf(&self) -> bool {
        &&& forall|i: int, j: int|
            0 <= i < j < self.pages@.len() ==> (#[trigger] self.pages@[i]).vpn
                != (#[trigger] self.pages@[j]).vpn
        &&& forall|i: int|
            0 <= i < self.pages@.len() ==> (#[trigger] self.pages@[i]).data@.len() == PAGE_SIZE
                && self.pages@[i].vpn <= MAX_VPN
    }

    /// Virtual page `vpn` is mapped.
    pub open spec fn has(&self, vpn: int) -> bool {
        exists|i: int| 0 <= i < self.pages@.len() && (#[trigger] self.pages@[i]).vpn == vpn
    }

    /// The page that maps `vpn` (meaningful where `has(vpn)`).
    pub open spec fn entry(&self, vpn: int) -> Page {
        self.pages@[choose|i: int|
            0 <= i < self.pages@.len() && (#[trigger] self.pages@[i]).vpn == vpn]
    }

    /// The byte at virtual address `va`.
    pub open spec fn byte_at(&self, va: int) -> u8 {
        self.entry(page_of(va)).data@[offset_of(va)]
    }

    /// Address `va` lies on a mapped page that may be read.
    pub open spec fn readable_at(&self, va: int) -> bool {
        self.has(page_of(va)) && prot_readable(self.entry(page_of(va)).prot)
    }

    /// Address `va` lies on a mapped page that may be written.
    pub open spec fn writable_at(&self, va: int) -> bool {
        self.has(page_of(va)) && prot_writable(self.entry(page_of(va)).prot)
    }

    /// Every byte of `[start, start + len)` is addressable and readable.
    pub open spec fn readable_range(&self, start: int, len: int) -> bool {
        &&& start + len <= usize::MAX
        &&& forall|va: int| start <= va < start + len ==> #[trigger] self.readable_at(va)
    }

    /// Every byte of `[start, start + len)` is addressable and writable.
    pub open spec fn writable_range(&self, start: int, len: int) -> bool {
        &&& start + len <= usize::MAX
        &&& forall|va: int| start <= va < start + len ==> #[trigger] self.writable_at(va)
    }

    /// `mmap` of this region is accepted: `start` is page-aligned, `prot` is valid, the region
    /// and its frames fit, and none of its pages is mapped yet.
    pub open spec fn can_mmap(&self, start: int, len: int, prot: usize, first_ppn: int) -> bool {
        &&& start % PAGE_SIZE as int == 0
        &&& prot_valid(prot)
        &&& page_of(start) + pages_for(len) <= MAX_VPN + 1
        &&& first_ppn + pages_for(len) <= usize::MAX
        &&& forall|v: int| page_of(start) <= v < page_of(start) + pages_for(len) ==> !#[trigger] self.has(v)
    }

    /// `munmap` of this region is accepted: `start` is page-aligned, the region fits, and each
    /// of its pages is mapped.
    pub open spec fn can_munmap(&self, start: int, len: int) -> bool {
        &&& start % PAGE_SIZE as int == 0
        &&& page_of(start) + pages_for(len) <= MAX_VPN + 1
        &&& forall|v: int| page_of(start) <= v < page_of(start) + pages_for(len) ==> #[trigger] self.has(v)
    }

    /// `s` followed by a NUL byte lies readable at `start`, and `s` holds no NUL.
    pub open spec fn cstr_at(&self, start: int, s: Seq<u8>) -> bool {
        &&& self.readable_range(start, s.len() as int + 1)
        &&& self.byte_at(start + s.len()) == 0
        &&& forall|k: int| 0 <= k < s.len() ==> #[trigger] self.byte_at(start + k) == s[k] && s[k] != 0
    }

    /// At most one string lies at an address.
    pub proof fn lemma_cstr_unique(&self, start: int, s1: Seq<u8>, s2: Seq<u8>)
        requires
            self.cstr_at(start, s1),
            self.cstr_at(start, s2),
        ensures
            s1 == s2,
    {
        if s1.len() < s2.len() {
            assert(self.byte_at(start + s1.len()) == s2[s1.len() as int]);
        } else if s2.len() < s1.len() {
            assert(self.byte_at(start + s2.len()) == s1[s2.len() as int]);
        } else {
            assert forall|k: int| 0 <= k < s1.len() implies s1[k] == s2[k] by {
                assert(self.byte_at(start + k) == s1[k]);
            }
            assert(s1 =~= s2);
        }
    }

    /// Where the bytes of `prefix` lie readable and non-NUL at `start` and the next address is
    /// not readable, no string lies at `start`.
    pub proof fn lemma_no_cstr(&self, start: int, prefix: Seq<u8>)
        requires
            forall|k: int|
                0 <= k < prefix.len() ==> #[trigger] self.byte_at(start + k) == prefix[k] && prefix[k] != 0,
            start + prefix.len() >= usize::MAX || !self.readable_at(start + prefix.len()),
        ensures
            forall|s: Seq<u8>| !#[trigger] self.cstr_at(start, s),
    {
        assert forall|s: Seq<u8>| !#[trigger] self.cstr_at(start, s) by {
            if self.cstr_at(start, s) {
                if s.len() < prefix.len() {
                    assert(self.byte_at(start + s.len()) == prefix[s.len() as int]);
                } else {
                    assert(self.readable_at(start + prefix.len()));
                }
            }
        }
    }

    /// Both address spaces map the same pages, with the same frames and protection.
    pub open spec fn same_layout(&self, other: &MemorySet) -> bool {
        &&& forall|v: int| #[trigger] self.has(v) == other.has(v)
        &&& forall|v: int|
            #[trigger] self.has(v) ==> self.entry(v).ppn == other.entry(v).ppn
                && self.entry(v).prot == other.entry(v).prot
    }

    pub proof fn lemma_entry(&self, i: int)
        requires
            self.wf(),
            0 <= i < self.pages@.len(),
        ensures
            self.has(self.pages@[i].vpn as int),
            self.entry(self.pages@[i].vpn as int) == self.pages@[i],
    {
        let v = self.pages@[i].vpn as int;
        assert(self.pages@[i].vpn == v);
        let j = choose|j: int| 0 <= j < self.pages@.len() && (#[trigger] self.pages@[j]).vpn == v;
        if j < i {
            assert(self.pages@[j].vpn != self.pages@[i].vpn);
        } else if i < j {
            assert(self.pages@[i].vpn != self.pages@[j].vpn);
        }
    }

    pub fn new() -> (r: MemorySet)
        ensures
            r.wf(),
            forall|v: int| !#[trigger] r.has(v),
    {
        MemorySet { pages: Vec::new() }
    }

    fn find_page(&self, vpn: usize) -> (r: Option<usize>)
        requires
            self.wf(),
        ensures
            r is None ==> !self.has(vpn as int),
            r matches Some(i) ==> i < self.pages@.len() && self.pages@[i as int].vpn == vpn
                && self.entry(vpn as int) == self.pages@[i as int],
    {
        let mut i: usize = 0;
        while i < self.pages.len()
            invariant
                self.wf(),
                i <= self.pages@.len(),
                forall|j: int| 0 <= j < i ==> (#[trigger] self.pages@[j]).vpn != vpn,
            decreases self.pages@.len() - i,
        {
            if self.pages[i].vpn == vpn {
                proof {
                    self.lemma_entry(i as int);
                }
                return Some(i);
            }
            i = i + 1;
        }
        None
    }

    /// Looks up the frame and protection of virtual page `vpn`.
    pub fn translate(&self, vpn: usize) -> (r: Option<PageTableEntry>)
        requires
            self.wf(),
        ensures
            r is None <==> !self.has(vpn as int),
            r matches Some(e) ==> e.ppn == self.entry(vpn as int).ppn && e.prot == self.entry(
                vpn as int,
            ).prot,
    {
        match self.find_page(vpn) {
            Some(i) => Some(PageTableEntry { ppn: self.pages[i].ppn, prot: self.pages[i].prot }),
            None => None,
        }
    }

    /// The physical address behind virtual address `va`: the frame of its page and its offset
    /// there. None where the page is not mapped or the address would not fit.
    pub fn translate_va(&self, va: usize) -> (r: Option<usize>)
        requires
            self.wf(),
        ensures
            !self.has(page_of(va as int)) ==> r is None,
            r matches Some(pa) ==> self.has(page_of(va as int)) && pa == self.entry(
                page_of(va as int),
            ).ppn * PAGE_SIZE + offset_of(va as int),
            self.has(page_of(va as int)) && self.entry(page_of(va as int)).ppn <= MAX_VPN ==> r is Some,
    {
        match self.translate(page_floor(va)) {
            Some(e) => {
                if e.ppn > MAX_VPN {
                    return None;
                }
                assert(e.ppn * PAGE_SIZE + PAGE_SIZE - 1 <= usize::MAX) by (nonlinear_arith)
                    requires
                        e.ppn <= MAX_VPN,
                        MAX_VPN == usize::MAX / PAGE_SIZE,
                        PAGE_SIZE == 4096,
                ;
                Some(e.ppn * PAGE_SIZE + page_offset(va))
            },
            None => None,
        }
    }

    /// Whether `va` is mapped readable; the page index when it is.
    fn readable_page(&self, va: usize) -> (r: Option<usize>)
        requires
            self.wf(),
        ensures
            r is None <==> !self.readable_at(va as int),
            r matches Some(i) ==> i < self.pages@.len() && self.pages@[i as int].vpn == page_of(
                va as int,
            ) && self.entry(page_of(va as int)) == self.pages@[i as int],
    {
        match self.find_page(page_floor(va)) {
            Some(i) => {
                if self.pages[i].prot & PROT_READ != 0 {
                    Some(i)
                } else {
                    None
                }
            },
            None => None,
        }
    }

    /// Whether `va` is mapped writable; the page index when it is.
    fn writable_page(&self, va: usize) -> (r: Option<usize>)
        requires
            self.wf(),
        ensures
            r is None <==> !self.writable_at(va as int),
            r matches Some(i) ==> i < self.pages@.len() && self.pages@[i as int].vpn == page_of(
                va as int,
            ) && self.entry(page_of(va as int)) == self.pages@[i as int],
    {
        match self.find_page(page_floor(va)) {
            Some(i) => {
                if self.pages[i].prot & PROT_WRITE != 0 {
                    Some(i)
                } else {
                    None
                }
            },
            None => None,
        }
    }

    /// Checks that the whole user range `[start, start + len)` may be read.
    pub fn check_readable(&self, start: usize, len: usize) -> (r: bool)
        requires
            self.wf(),
        ensures
            r == self.readable_range(start as int, len as int),
    {
        if start > usize::MAX - len {
            return false;
        }
        let mut k: usize = 0;
        while k < len
            invariant
                self.wf(),
                start + len <= usize::MAX,
                k <= len,
                forall|va: int| start <= va < start + k ==> #[trigger] self.readable_at(va),
            decreases len - k,
        {
            if self.readable_page(start + k).is_none() {
                return false;
            }
            k = k + 1;
        }
        true
    }

    /// Checks that the whole user range `[start, start + len)` may be written.
    pub fn check_writable(&self, start: usize, len: usize) -> (r: bool)
        requires
            self.wf(),
        ensures
            r == self.writable_range(start as int, len as int),
    {
        if start > usize::MAX - len {
            return false;
        }
        let mut k: usize = 0;
        while k < len
            invariant
                self.wf(),
                start + len <= usize::MAX,
                k <= len,
                forall|va: int| start <= va < start + k ==> #[trigger] self.writable_at(va),
            decreases len - k,
        {
            if self.writable_page(start + k).is_none() {
                return false;
            }
            k = k + 1;
        }
        true
    }

    /// Copies the user bytes `[start, start + len)` out of the address space, page by page;
    /// fails as a whole when any byte of the range is unmapped or unreadable.
    pub fn read_bytes(&self, start: usize, len: usize) -> (r: Option<Vec<u8>>)
        requires
            self.wf(),
        ensures
            r is None <==> !self.readable_range(start as int, len as int),
            r matches Some(v) ==> v@.len() == len && forall|k: int|
                0 <= k < len ==> v@[k] == #[trigger] self.byte_at(start + k),
    {
        if !self.check_readable(start, len) {
            return None;
        }
        let mut out: Vec<u8> = Vec::with_capacity(len);
        let mut k: usize = 0;
        while k < len
            invariant
                self.wf(),
                self.readable_range(start as int, len as int),
                k <= len,
                out@.len() == k,
                forall|j: int| 0 <= j < k ==> out@[j] == #[trigger] self.byte_at(start + j),
            decreases len - k,
        {
            let va = start + k;
            assert(self.readable_at(va as int));
            let i = self.readable_page(va).unwrap();
            let off = page_offset(va);
            proof {
                self.lemma_entry(i as int);
            }
            out.push(self.pages[i].data[off]);
            k = k + 1;
        }
        Some(out)
    }

    /// Reads a NUL-terminated string starting at `start`, crossing pages as needed.
    /// Fails when an unreadable address comes before the terminator.
    pub fn read_str(&self, start: usize) -> (r: Option<Vec<u8>>)
        requires
            self.wf(),
        ensures
            r matches Some(s) ==> self.cstr_at(start as int, s@),
            r is None ==> forall|s: Seq<u8>| !#[trigger] self.cstr_at(start as int, s),
    {
        let mut out: Vec<u8> = Vec::new();
        let mut va: usize = start;
        loop
            invariant
                self.wf(),
                va == start + out@.len(),
                self.readable_range(start as int, out@.len() as int),
                forall|k: int|
                    0 <= k < out@.len() ==> #[trigger] self.byte_at(start + k) == out@[k] && out@[k]
                        != 0,
            decreases usize::MAX - va,
        {
            if va == usize::MAX {
                proof {
                    self.lemma_no_cstr(start as int, out@);
                }
                return None;
            }
            match self.readable_page(va) {
                None => {
                    proof {
                        self.lemma_no_cstr(start as int, out@);
                    }
                    return None;
                },
                Some(i) => {
                    proof {
                        self.lemma_entry(i as int);
                    }
                    let b = self.pages[i].data[page_offset(va)];
                    if b == 0 {
                        assert(self.readable_range(start as int, out@.len() as int + 1)) by {
                            assert forall|x: int|
                                start <= x < start + out@.len() + 1 implies #[trigger] self.readable_at(
                                x,
                            ) by {
                                if x < start + out@.len() {
                                    assert(self.readable_at(x));
                                }
                            }
                        }
                        return Some(out);
                    }
                    assert(self.byte_at(va as int) == b);
                    let ghost out0 = out@;
                    out.push(b);
                    assert forall|k: int|
                        0 <= k < out@.len() implies #[trigger] self.byte_at(start + k) == out@[k]
                            && out@[k] != 0 by {
                        if k < out0.len() {
                            assert(out@[k] == out0[k]);
                        }
                    }
                    va = va + 1;
                    assert(self.readable_range(start as int, out@.len() as int)) by {
                        assert forall|x: int|
                            start <= x < start + out@.len() implies #[trigger] self.readable_at(x) by {
                            if x < start + out@.len() - 1 {
                                assert(self.readable_at(x));
                            }
                        }
                    }
                },
            }
        }
    }

    /// Replacing the page at index `i` by one with the same number, frame and protection keeps
    /// the mapping and changes only the entry of that page.
    pub proof fn lemma_replace(&self, new: &MemorySet, i: int, p: Page)
        requires
            self.wf(),
            0 <= i < self.pages@.len(),
            new.pages@ == self.pages@.update(i, p),
            p.vpn == self.pages@[i].vpn,
            p.data@.len() == PAGE_SIZE,
        ensures
            new.wf(),
            forall|v: int| #[trigger] new.has(v) == self.has(v),
            forall|v: int|
                #[trigger] new.has(v) && v != p.vpn ==> new.entry(v) == self.entry(v),
            new.entry(p.vpn as int) == p,
    {
        assert forall|v: int| #[trigger] new.has(v) == self.has(v) by {
            if self.has(v) {
                let j = choose|j: int| 0 <= j < self.pages@.len() && (#[trigger] self.pages@[j]).vpn == v;
                assert(new.pages@[j].vpn == v);
            }
            if new.has(v) {
                let j = choose|j: int| 0 <= j < new.pages@.len() && (#[trigger] new.pages@[j]).vpn == v;
                assert(self.pages@[j].vpn == v);
            }
        }
        assert(new.wf()) by {
            assert forall|a: int, b: int|
                0 <= a < b < new.pages@.len() implies (#[trigger] new.pages@[a]).vpn
                != (#[trigger] new.pages@[b]).vpn by {
                assert(self.pages@[a].vpn != self.pages@[b].vpn);
            }
        }
        assert forall|v: int| #[trigger] new.has(v) && v != p.vpn implies new.entry(v) == self.entry(
            v,
        ) by {
            let j = choose|j: int| 0 <= j < new.pages@.len() && (#[trigger] new.pages@[j]).vpn == v;
            new.lemma_entry(j);
            self.lemma_entry(j);
        }
        new.lemma_entry(i);
    }

    /// Adding a page for an unmapped number maps it and leaves every other entry alone.
    pub proof fn lemma_push(&self, new: &MemorySet, p: Page)
        requires
            self.wf(),
            new.pages@ == self.pages@.push(p),
            !self.has(p.vpn as int),
            p.data@.len() == PAGE_SIZE,
            p.vpn <= MAX_VPN,
        ensures
            new.wf(),
            forall|v: int| #[trigger] new.has(v) == (self.has(v) || v == p.vpn),
            forall|v: int| #[trigger] self.has(v) ==> new.entry(v) == self.entry(v),
            new.entry(p.vpn as int) == p,
    {
        let n = self.pages@.len() as int;
        assert(new.pages@[n] == p);
        assert forall|v: int| #[trigger] new.has(v) == (self.has(v) || v == p.vpn) by {
            if self.has(v) {
                let j = choose|j: int| 0 <= j < self.pages@.len() && (#[trigger] self.pages@[j]).vpn == v;
                assert(new.pages@[j].vpn == v);
            }
            if new.has(v) {
                let j = choose|j: int| 0 <= j < new.pages@.len() && (#[trigger] new.pages@[j]).vpn == v;
                if j < n {
                    assert(self.pages@[j].vpn == v);
                }
            }
        }
        assert(new.wf()) by {
            assert forall|a: int, b: int|
                0 <= a < b < new.pages@.len() implies (#[trigger] new.pages@[a]).vpn
                != (#[trigger] new.pages@[b]).vpn by {
                if b < n {
                    assert(self.pages@[a].vpn != self.pages@[b].vpn);
                } else {
                    assert(self.pages@[a].vpn == new.pages@[a].vpn);
                }
            }
        }
        assert forall|v: int| #[trigger] self.has(v) implies new.entry(v) == self.entry(v) by {
            let j = choose|j: int| 0 <= j < self.pages@.len() && (#[trigger] self.pages@[j]).vpn == v;
            assert(new.pages@[j] == self.pages@[j]);
            new.lemma_entry(j);
            self.lemma_entry(j);
        }
        new.lemma_entry(n);
    }

    /// Copies `data` into user memory starting at `start`, page by page; fails as a whole,
    /// changing nothing, when any byte of the range is unmapped or not writable.
    pub fn write_bytes(&mut self, start: usize, data: &Vec<u8>) -> (r: bool)
        requires
            old(self).wf(),
        ensures
            r == old(self).writable_range(start as int, data@.len() as int),
            !r ==> *final(self) == *old(self),
            final(self).wf(),
            final(self).same_layout(old(self)),
            r ==> forall|va: int|
                #[trigger] final(self).has(page_of(va)) ==> final(self).byte_at(va) == if start
                    <= va < start + data@.len() {
                    data@[va - start]
                } else {
                    old(self).byte_at(va)
                },
    {
        if !self.check_writable(start, data.len()) {
            return false;
        }
        let ghost orig = *self;
        let len = data.len();
        let mut k: usize = 0;
        while k < len
            invariant
                orig.wf(),
                self.wf(),
                len == data@.len(),
                orig.writable_range(start as int, len as int),
                k <= len,
                self.same_layout(&orig),
                forall|va: int|
                    #[trigger] self.has(page_of(va)) ==> self.byte_at(va) == if start <= va < start
                        + k {
                        data@[va - start]
                    } else {
                        orig.byte_at(va)
                    },
            decreases len - k,
        {
            let va = start + k;
            assert(orig.writable_at(va as int));
            assert(self.has(page_of(va as int)));
            assert(self.writable_at(va as int));
            let i = self.writable_page(va).unwrap();
            let off = page_offset(va);
            let ghost before = *self;
            let mut pg = Page { vpn: 0, ppn: 0, prot: 0, data: Vec::new() };
            self.pages.set_and_swap(i, &mut pg);
            proof {
                before.lemma_entry(i as int);
            }
            pg.data.set(off, data[k]);
            let ghost p = pg;
            self.pages.set(i, pg);
            proof {
                assert(self.pages@ =~= before.pages@.update(i as int, p));
                before.lemma_replace(self, i as int, p);
                assert forall|x: int| #[trigger] self.has(page_of(x)) implies self.byte_at(x) == if start
                    <= x < start + k + 1 {
                    data@[x - start]
                } else {
                    orig.byte_at(x)
                } by {
                    if page_of(x) != p.vpn {
                        assert(self.entry(page_of(x)) == before.entry(page_of(x)));
                    } else if offset_of(x) != off {
                        assert(x != va);
                    }
                }
            }
            k = k + 1;
        }
        true
    }

    /// Maps the pages that cover `[start, start + len)` with protection `prot`, each on a
    /// zeroed frame numbered from `first_ppn` on. Fails, changing nothing, when `start` is not
    /// page-aligned, `prot` is not valid, the region does not fit, or a page of it is mapped.
    pub fn mmap(&mut self, start: usize, len: usize, prot: usize, first_ppn: usize) -> (r: bool)
        requires
            old(self).wf(),
        ensures
            r == old(self).can_mmap(start as int, len as int, prot, first_ppn as int),
            !r ==> *final(self) == *old(self),
            r ==> mmapped(*old(self), *final(self), start as int, len as int, prot, first_ppn as int),
            final(self).wf(),
    {
        if start % PAGE_SIZE != 0 || prot & !7usize != 0 || prot & 7usize == 0 {
            return false;
        }
        let first = page_floor(start);
        let n: usize = len / PAGE_SIZE + if len % PAGE_SIZE != 0 { 1usize } else { 0usize };
        assert(n as int == pages_for(len as int));
        if n > MAX_VPN + 1 - first || n > usize::MAX - first_ppn {
            return false;
        }
        let mut c: usize = 0;
        while c < n
            invariant
                self.wf(),
                *self == *old(self),
                first as int == page_of(start as int),
                n as int == pages_for(len as int),
                c <= n,
                first + n <= MAX_VPN + 1,
                forall|v: int| first <= v < first + c ==> !#[trigger] self.has(v),
            decreases n - c,
        {
            if let Some(i) = self.find_page(first + c) {
                assert(self.pages@[i as int].vpn == first + c);
                assert(self.has(first + c));
                return false;
            }
            c = c + 1;
        }
        let ghost orig = *self;
        let mut k: usize = 0;
        while k < n
            invariant
                orig.wf(),
                self.wf(),
                k <= n,
                first + n <= MAX_VPN + 1,
                first_ppn + n <= usize::MAX,
                forall|v: int| first <= v < first + n ==> !#[trigger] orig.has(v),
                forall|v: int| #[trigger] self.has(v) == (orig.has(v) || first <= v < first + k),
                forall|v: int| #[trigger] orig.has(v) ==> self.entry(v) == orig.entry(v),
                forall|v: int|
                    first <= v < first + k ==> {
                        &&& (#[trigger] self.entry(v)).prot == prot
                        &&& self.entry(v).ppn == first_ppn + (v - first)
                        &&& forall|o: int| 0 <= o < PAGE_SIZE ==> self.entry(v).data@[o] == 0
                    },
            decreases n - k,
        {
            let ghost before = *self;
            let p = Page { vpn: first + k, ppn: first_ppn + k, prot, data: vec![0u8; PAGE_SIZE] };
            let ghost gp = p;
            assert(!before.has(gp.vpn as int));
            self.pages.push(p);
            proof {
                before.lemma_push(self, gp);
                assert forall|v: int| #[trigger] orig.has(v) implies self.entry(v) == orig.entry(v) by {
                    assert(before.has(v));
                }
                assert forall|v: int|
                    first <= v < first + k + 1 implies {
                        &&& (#[trigger] self.entry(v)).prot == prot
                        &&& self.entry(v).ppn == first_ppn + (v - first)
                        &&& forall|o: int| 0 <= o < PAGE_SIZE ==> self.entry(v).data@[o] == 0
                    } by {
                    if v < first + k {
                        assert(before.has(v));
                    }
                }
            }
            k = k + 1;
        }
        true
    }

    /// Removes the pages that cover `[start, start + len)`. Fails, changing nothing, when
    /// `start` is not page-aligned, the region does not fit, or a page of it is not mapped.
    pub fn munmap(&mut self, start: usize, len: usize) -> (r: bool)
        requires
            old(self).wf(),
        ensures
            r == old(self).can_munmap(start as int, len as int),
            !r ==> *final(self) == *old(self),
            r ==> munmapped(*old(self), *final(self), start as int, len as int),
            final(self).wf(),
    {
        if start % PAGE_SIZE != 0 {
            return false;
        }
        let first = page_floor(start);
        let n: usize = len / PAGE_SIZE + if len % PAGE_SIZE != 0 { 1usize } else { 0usize };
        if n > MAX_VPN + 1 - first {
            return false;
        }
        let mut c: usize = 0;
        while c < n
            invariant
                self.wf(),
                *self == *old(self),
                first as int == page_of(start as int),
                n as int == pages_for(len as int),
                first + n <= MAX_VPN + 1,
                c <= n,
                forall|v: int| first <= v < first + c ==> #[trigger] self.has(v),
            decreases n - c,
        {
            if self.find_page(first + c).is_none() {
                return false;
            }
            c = c + 1;
        }
        let ghost orig = *self;
        let mut kept: Vec<Page> = Vec::new();
        let ghost mut idx: Seq<int> = Seq::empty();
        while self.pages.len() > 0
            invariant
                orig.wf(),
                first + n <= MAX_VPN + 1,
                self.pages@.len() <= orig.pages@.len(),
                self.pages@ == orig.pages@.subrange(0, self.pages@.len() as int),
                kept@.len() == idx.len(),
                forall|i: int|
                    0 <= i < idx.len() ==> self.pages@.len() <= #[trigger] idx[i] < orig.pages@.len()
                        && kept@[i] == orig.pages@[idx[i]],
                forall|i: int, j: int| 0 <= i < j < idx.len() ==> idx[i] > idx[j],
                forall|i: int|
                    0 <= i < kept@.len() ==> !(first <= (#[trigger] kept@[i]).vpn < first + n),
                forall|j: int|
                    self.pages@.len() <= j < orig.pages@.len() && !(first <= (
                    #[trigger] orig.pages@[j]).vpn < first + n) ==> exists|i: int|
                        0 <= i < idx.len() && idx[i] == j,
            decreases self.pages@.len(),
        {
            let ghost before = self.pages@;
            let ghost old_idx = idx;
            let p = self.pages.pop().unwrap();
            assert(self.pages@ =~= orig.pages@.subrange(0, self.pages@.len() as int));
            assert(p == orig.pages@[self.pages@.len() as int]);
            if p.vpn < first || p.vpn >= first + n {
                kept.push(p);
                proof {
                    idx = idx.push(self.pages@.len() as int);
                }
            }
            proof {
                assert forall|j: int|
                    self.pages@.len() <= j < orig.pages@.len() && !(first <= (
                    #[trigger] orig.pages@[j]).vpn < first + n) implies exists|i: int|
                    0 <= i < idx.len() && idx[i] == j by {
                    if j == self.pages@.len() {
                        assert(idx[idx.len() - 1] == j);
                    } else {
                        let i = choose|i: int| 0 <= i < old_idx.len() && old_idx[i] == j;
                        assert(idx[i] == j);
                    }
                }
            }
        }
        self.pages = kept;
        proof {
            assert(self.wf()) by {
                assert forall|a: int, b: int|
                    0 <= a < b < self.pages@.len() implies (#[trigger] self.pages@[a]).vpn
                    != (#[trigger] self.pages@[b]).vpn by {
                    assert(orig.pages@[idx[b]].vpn != orig.pages@[idx[a]].vpn);
                }
                assert forall|i: int| 0 <= i < self.pages@.len() implies (
                #[trigger] self.pages@[i]).data@.len() == PAGE_SIZE && self.pages@[i].vpn
                    <= MAX_VPN by {
                    assert(self.pages@[i] == orig.pages@[idx[i]]);
                }
            }
            assert forall|v: int|
                #[trigger] self.has(v) == (orig.has(v) && !(page_of(start as int) <= v < page_of(
                    start as int,
                ) + pages_for(len as int))) by {
                if self.has(v) {
                    let i = choose|i: int|
                        0 <= i < self.pages@.len() && (#[trigger] self.pages@[i]).vpn == v;
                    assert(orig.pages@[idx[i]].vpn == v);
                }
                if orig.has(v) && !(first <= v < first + n) {
                    let j = choose|j: int|
                        0 <= j < orig.pages@.len() && (#[trigger] orig.pages@[j]).vpn == v;
                    let i = choose|i: int| 0 <= i < idx.len() && idx[i] == j;
                    assert(self.pages@[i].vpn == v);
                }
            }
            assert forall|v: int| #[trigger] self.has(v) implies self.entry(v) == orig.entry(v) by {
                let i = choose|i: int| 0 <= i < self.pages@.len() && (#[trigger] self.pages@[i]).vpn == v;
                self.lemma_entry(i);
                orig.lemma_entry(idx[i]);
            }
        }
        true
    }

    /// A copy of this address space in which every page has its own new frame, numbered from
    /// `first_ppn` on, with the same bytes and protection.
    pub fn duplicate(&self, first_ppn: usize) -> (r: MemorySet)
        requires
            self.wf(),
            first_ppn + self.pages@.len() <= usize::MAX,
        ensures
            r.wf(),
            r.pages@.len() == self.pages@.len(),
            forall|v: int| #[trigger] r.has(v) == self.has(v),
            forall|v: int|
                #[trigger] r.has(v) ==> r.entry(v).prot == self.entry(v).prot && r.entry(v).data@
                    == self.entry(v).data@ && first_ppn <= r.entry(v).ppn < first_ppn
                    + self.pages@.len(),
    {
        let mut pages: Vec<Page> = Vec::new();
        let mut i: usize = 0;
        while i < self.pages.len()
            invariant
                self.wf(),
                first_ppn + self.pages@.len() <= usize::MAX,
                i <= self.pages@.len(),
                pages@.len() == i,
                forall|j: int|
                    0 <= j < i ==> (#[trigger] pages@[j]).vpn == self.pages@[j].vpn
                        && pages@[j].prot == self.pages@[j].prot && pages@[j].data@
                        == self.pages@[j].data@ && pages@[j].ppn == first_ppn + j,
            decreases self.pages@.len() - i,
        {
            let data = self.pages[i].data.clone();
            assert(data@ =~= self.pages@[i as int].data@);
            pages.push(
                Page { vpn: self.pages[i].vpn, ppn: first_ppn + i, prot: self.pages[i].prot, data },
            );
            i = i + 1;
        }
        let r = MemorySet { pages };
        proof {
            assert(r.wf()) by {
                assert forall|a: int, b: int|
                    0 <= a < b < r.pages@.len() implies (#[trigger] r.pages@[a]).vpn
                    != (#[trigger] r.pages@[b]).vpn by {
                    assert(self.pages@[a].vpn != self.pages@[b].vpn);
                }
            }
            assert forall|v: int| #[trigger] r.has(v) == self.has(v) by {
                if r.has(v) {
                    let j = choose|j: int| 0 <= j < r.pages@.len() && (#[trigger] r.pages@[j]).vpn == v;
                    assert(self.pages@[j].vpn == v);
                }
                if self.has(v) {
                    let j = choose|j: int|
                        0 <= j < self.pages@.len() && (#[trigger] self.pages@[j]).vpn == v;
                    assert(r.pages@[j].vpn == v);
                }
            }
            assert forall|v: int| #[trigger] r.has(v) implies r.entry(v).prot == self.entry(v).prot
                && r.entry(v).data@ == self.entry(v).data@ && first_ppn <= r.entry(v).ppn
                < first_ppn + self.pages@.len() by {
                let j = choose|j: int| 0 <= j < r.pages@.len() && (#[trigger] r.pages@[j]).vpn == v;
                r.lemma_entry(j);
                self.lemma_entry(j);
            }
        }
        r
    }

    /// A fresh address space holding a program image: the pages that cover it from address 0
    /// on, readable, writable and executable, on frames numbered from `first_ppn` on.
    pub fn from_image(data: &Vec<u8>, first_ppn: usize) -> (r: MemorySet)
        requires
            data@.len() <= MAX_IMAGE,
            first_ppn + pages_for(data@.len() as int) <= usize::MAX,
        ensures
            r.wf(),
            forall|v: int| #[trigger] r.has(v) == (0 <= v < pages_for(data@.len() as int)),
            forall|va: int| 0 <= va < data@.len() ==> #[trigger] r.byte_at(va) == data@[va],
            forall|v: int| #[trigger] r.has(v) ==> r.entry(v).ppn < first_ppn + pages_for(data@.len() as int),
    {
        let mut ms = MemorySet::new();
        assert(prot_valid(7usize)) by (bit_vector);
        assert(prot_writable(7usize)) by (bit_vector);
        let ok = ms.mmap(0, data.len(), 7, first_ppn);
        assert(ok);
        assert(ms.writable_range(0, data@.len() as int)) by {
            assert forall|va: int| 0 <= va < data@.len() implies #[trigger] ms.writable_at(va) by {
                assert(ms.has(page_of(va)));
            }
        }
        let ghost mapped = ms;
        ms.write_bytes(0, data);
        proof {
            assert forall|v: int| #[trigger] ms.has(v) implies ms.entry(v).ppn < first_ppn + pages_for(
                data@.len() as int,
            ) by {
                assert(mapped.has(v));
            }
            assert forall|va: int| 0 <= va < data@.len() implies #[trigger] ms.byte_at(va) == data@[va] by {
                assert(mapped.has(page_of(va)));
                assert(ms.has(page_of(va)));
            }
        }
        ms
    }
}

} // verus!
