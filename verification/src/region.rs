//! A single contiguous virtual-address range backed by one file region,
//! tracking which of its pages have been loaded and how to split itself when
//! overlapped.

use crate::addr::{align_down, align_down_spec, lemma_align_down_mono, lemma_align_down_properties,
    PageSize, VirtAddrRange};
use crate::file::{VmError, VmFile};
use vstd::prelude::*;

verus! {

/// A memory-mapped region with file backing.
///
/// The region covers the virtual addresses in `range`; the byte at
/// `range.start` corresponds to byte `offset` of `file`. `populated` records
/// the page-aligned addresses whose backing bytes have been loaded; it is
/// the region's only mutable state, and it is mutated only through an
/// exclusive borrow, which gives page loads and structural edits on the same
/// region the mutual exclusion the bookkeeping depends on.
pub struct MmapRegion<F: VmFile> {
    /// Virtual address range for this mapping.
    pub range: VirtAddrRange,
    /// File backing this memory region.
    pub file: F,
    /// Offset into the file for this mapping. Signed, so that arithmetic
    /// during splitting cannot be lost to unsigned underflow before
    /// validation.
    pub offset: isize,
    /// The set of populated (loaded) page addresses in this region.
    pub populated: Vec<usize>,
    /// Page alignment for this mapping.
    pub align: PageSize,
}

/// The mathematical content of a region: its interval, backing file and
/// offset, the set of populated page addresses, and its page size.
#[verifier::ext_equal]
pub struct RegionModel<F> {
    pub range: VirtAddrRange,
    pub file: F,
    pub offset: int,
    pub populated: Set<usize>,
    pub align: PageSize,
}

impl<F: VmFile> View for MmapRegion<F> {
    type V = RegionModel<F>;

    open spec fn view(&self) -> RegionModel<F> {
        RegionModel {
            range: self.range,
            file: self.file,
            offset: self.offset as int,
            populated: self.populated@.to_set(),
            align: self.align,
        }
    }
}

impl<F> RegionModel<F> {
    /// The model of the sub-region of `self` covering `[s, e)`: it keeps the
    /// same file and page size, shifts the file offset by the distance from
    /// the parent's start, and keeps exactly the populated addresses that
    /// fall inside `[s, e)`.
    pub open spec fn sub_model(self, s: usize, e: usize) -> RegionModel<F> {
        RegionModel {
            range: VirtAddrRange { start: s, end: e },
            file: self.file,
            offset: self.offset + s - self.range.start,
            populated: self.populated.filter(|a: usize| s <= a < e),
            align: self.align,
        }
    }

    /// The portion of `self` strictly left of `q`, if the two ranges overlap
    /// and that portion is non-empty.
    pub open spec fn split_before(self, q: VirtAddrRange) -> Option<RegionModel<F>> {
        if self.range.overlaps_spec(q) && self.range.start < q.start {
            Some(self.sub_model(self.range.start, q.start))
        } else {
            None
        }
    }

    /// The intersection of `self` and `q`, if the two ranges overlap.
    pub open spec fn split_overlap(self, q: VirtAddrRange) -> Option<RegionModel<F>> {
        if self.range.overlaps_spec(q) {
            Some(self.sub_model(self.range.inter_start(q), self.range.inter_end(q)))
        } else {
            None
        }
    }

    /// The portion of `self` strictly right of `q`, if the two ranges
    /// overlap and that portion is non-empty.
    pub open spec fn split_after(self, q: VirtAddrRange) -> Option<RegionModel<F>> {
        if self.range.overlaps_spec(q) && q.end < self.range.end {
            Some(self.sub_model(q.end, self.range.end))
        } else {
            None
        }
    }

    /// The page-aligned address of the page containing `vaddr`.
    pub open spec fn page_of(self, vaddr: usize) -> usize {
        align_down_spec(vaddr, self.align.size_spec()) as usize
    }

    /// How many bytes a load of the page at `p` reads: a full page, or the
    /// remainder of the region for its tail page.
    pub open spec fn load_size(self, p: usize) -> int
        recommends
            p <= self.range.end,
    {
        if self.align.size_spec() <= self.range.end - p {
            self.align.size_spec() as int
        } else {
            self.range.end - p
        }
    }

    /// The file offset backing the virtual address `p`.
    pub open spec fn file_offset_of(self, p: usize) -> int {
        self.offset + p - self.range.start
    }

    /// Splitting at `q` keeps every new region start on a page boundary
    /// exactly when the edges of `q` that cut into `self` are page-aligned.
    pub open spec fn split_cuts_aligned(self, q: VirtAddrRange) -> bool {
        &&& self.range.overlaps_spec(q) && self.range.start < q.start
            ==> q.start % self.align.size_spec() == 0
        &&& self.range.overlaps_spec(q) && q.end < self.range.end
            ==> q.end % self.align.size_spec() == 0
    }

    /// Region invariant: the interval is ordered, starts on a page boundary,
    /// is short enough that offsets computed from it fit in `isize`, and
    /// every populated address is a page-aligned address inside it.
    pub open spec fn wf(self) -> bool {
        &&& self.range.wf()
        &&& self.range.start % self.align.size_spec() == 0
        &&& self.range.size_spec() <= isize::MAX
        &&& self.offset + self.range.size_spec() <= isize::MAX
        &&& self.offset >= isize::MIN
        &&& forall|a: usize| self.populated.contains(a)
                ==> self.range.contains_spec(a) && a % self.align.size_spec() == 0
    }
}

impl<F: VmFile> MmapRegion<F> {
    /// Full region invariant: the model invariant, plus the populated list
    /// holding each page address at most once.
    pub open spec fn wf(self) -> bool {
        &&& self@.wf()
        &&& self.populated@.no_duplicates()
    }

    /// Create a new memory-mapped region with no page populated yet.
    pub fn new(range: VirtAddrRange, file: F, offset: isize, align: PageSize) -> (r: Self)
        requires
            range.wf(),
            range.start % align.size_spec() == 0,
            range.size_spec() <= isize::MAX,
            offset + range.size_spec() <= isize::MAX,
        ensures
            r.wf(),
            r@ == (RegionModel {
                range,
                file,
                offset: offset as int,
                populated: Set::<usize>::empty(),
                align,
            }),
    {
        let r = MmapRegion { range, file, offset, populated: Vec::new(), align };
        proof {
            assert(r.populated@.to_set() =~= Set::<usize>::empty());
        }
        r
    }

    /// Check if a virtual address is contained within this region.
    pub fn contains(&self, vaddr: usize) -> (r: bool)
        ensures
            r == self.range.contains_spec(vaddr),
    {
        self.range.contains(vaddr)
    }

    /// Check if this region overlaps with the given range.
    pub fn overlaps(&self, range: &VirtAddrRange) -> (r: bool)
        ensures
            r == self.range.overlaps_spec(*range),
    {
        self.range.overlaps(range)
    }

    /// Build the sub-region of `self` covering `[s, e)`, carrying over the
    /// populated addresses that fall inside it.
    #[verifier::loop_isolation(false)]
    fn make_segment(&self, s: usize, e: usize) -> (r: Self)
        requires
            self.wf(),
            self.range.start <= s,
            s <= e,
            e <= self.range.end,
            s % self.align.size_spec() == 0,
        ensures
            r.wf(),
            r@ == self@.sub_model(s, e),
    {
        let ghost pred = |a: usize| s <= a < e;
        let mut pop: Vec<usize> = Vec::new();
        let mut i: usize = 0;
        while i < self.populated.len()
            invariant
                i <= self.populated@.len(),
                pop@.no_duplicates(),
                pop@.to_set() == self.populated@.take(i as int).to_set().filter(pred),
            decreases self.populated@.len() - i,
        {
            let a = self.populated[i];
            proof {
                assert(self.populated@.take(i as int).push(a) =~= self.populated@.take(
                    i + 1 as int,
                ));
                lemma_to_set_push(self.populated@.take(i as int), a);
                assert(!self.populated@.take(i as int).contains(a)) by {
                    if self.populated@.take(i as int).contains(a) {
                        let j = choose|j: int|
                            0 <= j < i && self.populated@.take(i as int)[j] == a;
                        assert(self.populated@[j] == self.populated@[i as int]);
                    }
                }
            }
            if s <= a && a < e {
                proof {
                    assert(!pop@.contains(a)) by {
                        if pop@.contains(a) {
                            assert(pop@.to_set().contains(a));
                            assert(self.populated@.take(i as int).to_set().contains(a));
                            assert(self.populated@.take(i as int).contains(a));
                        }
                    }
                    lemma_to_set_push(pop@, a);
                }
                pop.push(a);
                proof {
                    assert(pop@.to_set() =~= self.populated@.take(i + 1 as int).to_set().filter(
                        pred,
                    ));
                }
            } else {
                proof {
                    assert(pop@.to_set() =~= self.populated@.take(i + 1 as int).to_set().filter(
                        pred,
                    ));
                }
            }
            i += 1;
        }
        proof {
            assert(self.populated@.take(self.populated@.len() as int) =~= self.populated@);
        }
        let seg = MmapRegion {
            range: VirtAddrRange::new(s, e),
            file: self.file.dup(),
            offset: self.offset + ((s - self.range.start) as isize),
            populated: pop,
            align: self.align,
        };
        proof {
            assert(seg@ =~= self@.sub_model(s, e));
        }
        seg
    }

    /// Validate and compute the file offset for loading the page at
    /// `page_addr`, given the backing file's current length: the offset is
    /// valid exactly when it lies in `[0, file_len)`.
    pub fn file_offset_for(&self, page_addr: usize, file_len: u64) -> (r: Result<u64, VmError>)
        requires
            self.wf(),
            self.range.start <= page_addr,
            page_addr <= self.range.end,
        ensures
            r is Ok <==> 0 <= self@.file_offset_of(page_addr) < file_len,
            r is Ok ==> r.unwrap() == self@.file_offset_of(page_addr),
            r is Err ==> r == Err::<u64, VmError>(VmError::InvalidMapping),
    {
        let delta = page_addr - self.range.start;
        let fo = self.offset + (delta as isize);
        if fo < 0 {
            return Err(VmError::InvalidMapping);
        }
        let fou = fo as u64;
        if fou >= file_len {
            return Err(VmError::InvalidMapping);
        }
        Ok(fou)
    }

    /// Load the bytes backing the page containing `vaddr` into a fresh
    /// buffer and record the page as populated.
    ///
    /// Fails with `AlreadyPopulated` if that page was loaded before, with
    /// `InvalidMapping` if the computed file offset falls outside
    /// `[0, file length)`, and propagates any file error unchanged. On any
    /// failure the populated set is left as it was.
    pub fn get_buf(&mut self, vaddr: usize) -> (r: Result<Vec<u8>, VmError>)
        requires
            old(self).wf(),
            old(self).range.contains_spec(vaddr),
        ensures
            final(self).wf(),
            final(self).range == old(self).range,
            final(self)@.file == old(self)@.file,
            final(self).offset == old(self).offset,
            final(self).align == old(self).align,
            ({
                let p = old(self)@.page_of(vaddr);
                &&& old(self)@.populated.contains(p) ==> r == Err::<Vec<u8>, VmError>(
                    VmError::AlreadyPopulated,
                )
                &&& r is Err ==> final(self)@.populated == old(self)@.populated
                &&& !old(self)@.populated.contains(p) && old(self)@.file_offset_of(p) < 0
                    ==> r == Err::<Vec<u8>, VmError>(VmError::InvalidMapping)
                &&& r is Ok ==> {
                    &&& !old(self)@.populated.contains(p)
                    &&& old(self)@.file_offset_of(p) >= 0
                    &&& r.unwrap()@.len() == old(self)@.load_size(p)
                    &&& final(self)@.populated == old(self)@.populated.insert(p)
                }
            }),
    {
        let sz = self.align.size();
        let p = align_down(vaddr, sz);
        proof {
            lemma_align_down_properties(self.range.start, sz);
            lemma_align_down_mono(self.range.start, vaddr, sz);
        }
        if vec_contains(&self.populated, p) {
            return Err(VmError::AlreadyPopulated);
        }
        let delta = p - self.range.start;
        if self.offset + (delta as isize) < 0 {
            return Err(VmError::InvalidMapping);
        }
        let file_len = match self.file.len() {
            Ok(n) => n,
            Err(e) => return Err(e),
        };
        let file_offset = match self.file_offset_for(p, file_len) {
            Ok(o) => o,
            Err(e) => return Err(e),
        };
        let remain = self.range.end - p;
        let buf_size = if sz <= remain {
            sz
        } else {
            remain
        };
        let mut buf: Vec<u8> = vec![0u8; buf_size];
        match self.file.read_at(&mut buf, file_offset) {
            Ok(_) => {},
            Err(e) => return Err(e),
        }
        proof {
            lemma_to_set_push(self.populated@, p);
        }
        self.populated.push(p);
        Ok(buf)
    }

    /// Split this region at the given range, returning the up to three
    /// disjoint segments of it that lie before, inside, and after the range.
    /// When this region does not overlap the range at all, every segment is
    /// absent and the split is a no-op signal.
    pub fn split_at_range(&self, range: &VirtAddrRange) -> (r: (
        Option<Self>,
        Option<Self>,
        Option<Self>,
    ))
        requires
            self.wf(),
            range.wf(),
            self@.split_cuts_aligned(*range),
        ensures
            opt_model(r.0) == self@.split_before(*range),
            opt_model(r.1) == self@.split_overlap(*range),
            opt_model(r.2) == self@.split_after(*range),
            r.0 is Some ==> r.0.unwrap().wf(),
            r.1 is Some ==> r.1.unwrap().wf(),
            r.2 is Some ==> r.2.unwrap().wf(),
    {
        if !self.overlaps(range) {
            return (None, None, None);
        }
        let before = if self.range.start < range.start {
            Some(self.make_segment(self.range.start, range.start))
        } else {
            None
        };
        let os = if self.range.start >= range.start {
            self.range.start
        } else {
            range.start
        };
        let oe = if self.range.end <= range.end {
            self.range.end
        } else {
            range.end
        };
        let overlap = Some(self.make_segment(os, oe));
        let after = if range.end < self.range.end {
            Some(self.make_segment(range.end, self.range.end))
        } else {
            None
        };
        (before, overlap, after)
    }
}

impl<F: VmFile> Clone for MmapRegion<F> {
    /// Duplicate the region: an equivalent file handle and a copy of the
    /// populated set.
    fn clone(&self) -> (r: Self)
        ensures
            r@ == self@,
            self.wf() ==> r.wf(),
    {
        let r = MmapRegion {
            range: self.range,
            file: self.file.dup(),
            offset: self.offset,
            populated: copy_pages(&self.populated),
            align: self.align,
        };
        proof {
            assert(r@ =~= self@);
        }
        r
    }
}

/// Copy a list of page addresses.
#[verifier::loop_isolation(false)]
fn copy_pages(v: &Vec<usize>) -> (r: Vec<usize>)
    ensures
        r@ == v@,
{
    let mut r: Vec<usize> = Vec::new();
    let mut i: usize = 0;
    while i < v.len()
        invariant
            i <= v@.len(),
            r@ == v@.take(i as int),
        decreases v@.len() - i,
    {
        r.push(v[i]);
        proof {
            assert(r@ =~= v@.take(i + 1 as int));
        }
        i += 1;
    }
    proof {
        assert(v@.take(v@.len() as int) =~= v@);
    }
    r
}

/// True iff `x` is one of the addresses in `v`.
#[verifier::loop_isolation(false)]
fn vec_contains(v: &Vec<usize>, x: usize) -> (r: bool)
    ensures
        r == v@.contains(x),
{
    let mut i: usize = 0;
    while i < v.len()
        invariant
            i <= v@.len(),
            forall|j: int| 0 <= j < i ==> v@[j] != x,
        decreases v@.len() - i,
    {
        if v[i] == x {
            return true;
        }
        i += 1;
    }
    false
}

/// The models of a sequence of regions, in order.
pub open spec fn models_of<F: VmFile>(rs: Seq<MmapRegion<F>>) -> Seq<RegionModel<F>> {
    rs.map_values(|x: MmapRegion<F>| x@)
}

/// The model of an optional region.
pub open spec fn opt_model<F: VmFile>(o: Option<MmapRegion<F>>) -> Option<RegionModel<F>> {
    match o {
        Some(m) => Some(m@),
        None => None,
    }
}

/// The populated set of an optional split segment; an absent segment holds
/// no pages.
pub open spec fn pop_of<F>(o: Option<RegionModel<F>>) -> Set<usize> {
    match o {
        Some(m) => m.populated,
        None => Set::<usize>::empty(),
    }
}

/// Offset correctness: every segment produced by splitting keeps the byte at
/// each virtual address backed by the same file byte, so its offset is the
/// parent's offset shifted by the distance between the two starts.
pub proof fn lemma_split_offset_correct<F>(m: RegionModel<F>, q: VirtAddrRange)
    ensures
        m.split_before(q) is Some ==> m.split_before(q).unwrap().offset == m.offset + (
        m.split_before(q).unwrap().range.start - m.range.start),
        m.split_overlap(q) is Some ==> m.split_overlap(q).unwrap().offset == m.offset + (
        m.split_overlap(q).unwrap().range.start - m.range.start),
        m.split_after(q) is Some ==> m.split_after(q).unwrap().offset == m.offset + (
        m.split_after(q).unwrap().range.start - m.range.start),
{
}

/// Population conservation on split: when a region whose populated pages all
/// lie in its interval is split at an overlapping range, the populated sets
/// of the segments are pairwise disjoint and together are exactly the
/// region's populated set — no page is lost or duplicated.
pub proof fn lemma_split_populated_partition<F>(m: RegionModel<F>, q: VirtAddrRange)
    requires
        m.range.wf(),
        q.wf(),
        m.range.overlaps_spec(q),
        forall|a: usize| m.populated.contains(a) ==> m.range.contains_spec(a),
    ensures
        pop_of(m.split_before(q)).disjoint(pop_of(m.split_overlap(q))),
        pop_of(m.split_before(q)).disjoint(pop_of(m.split_after(q))),
        pop_of(m.split_overlap(q)).disjoint(pop_of(m.split_after(q))),
        pop_of(m.split_before(q)).union(pop_of(m.split_overlap(q))).union(
            pop_of(m.split_after(q)),
        ) == m.populated,
{
    let b = pop_of(m.split_before(q));
    let o = pop_of(m.split_overlap(q));
    let af = pop_of(m.split_after(q));
    assert forall|a: usize| m.populated.contains(a) implies b.union(o).union(af).contains(a) by {
        assert(m.range.contains_spec(a));
        if a < q.start {
            assert(m.split_before(q) is Some);
            assert(b.contains(a));
        } else if a < q.end {
            assert(o.contains(a));
        } else {
            assert(m.split_after(q) is Some);
            assert(af.contains(a));
        }
    }
    assert(b.union(o).union(af) =~= m.populated);
}

/// Pushing an element onto a sequence inserts it into the sequence's set of
/// elements.
proof fn lemma_to_set_push(s: Seq<usize>, x: usize)
    ensures
        s.push(x).to_set() == s.to_set().insert(x),
{
    assert forall|a: usize| s.push(x).to_set().contains(a) implies s.to_set().insert(x).contains(
        a,
    ) by {
        let i = choose|i: int| 0 <= i < s.push(x).len() && s.push(x)[i] == a;
        if i < s.len() {
            assert(s[i] == a);
        }
    }
    assert forall|a: usize| s.to_set().insert(x).contains(a) implies s.push(x).to_set().contains(
        a,
    ) by {
        if s.contains(a) {
            let i = choose|i: int| 0 <= i < s.len() && s[i] == a;
            assert(s.push(x)[i] == a);
        } else {
            assert(s.push(x)[s.len() as int] == x);
        }
    }
    assert(s.push(x).to_set() =~= s.to_set().insert(x));
}

} // verus!
