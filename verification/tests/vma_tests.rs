use vma::{align_down, MmapRegion, PageSize, VirtAddrRange, VmError, VmFile, VmaManager};

#[derive(Clone, Debug)]
struct MemFile {
    data: Vec<u8>,
}

impl MemFile {
    fn pages(n: usize) -> MemFile {
        let mut data = Vec::new();
        for p in 0..n {
            for i in 0..0x1000 {
                data.push((p as u8).wrapping_add(i as u8));
            }
        }
        MemFile { data }
    }
}

impl VmFile for MemFile {
    fn dup(&self) -> MemFile {
        MemFile { data: self.data.clone() }
    }

    fn read_at(&self, buf: &mut Vec<u8>, offset: u64) -> Result<usize, VmError> {
        let off = offset as usize;
        if off >= self.data.len() {
            return Ok(0);
        }
        let n = buf.len().min(self.data.len() - off);
        for i in 0..n {
            buf[i] = self.data[off + i];
        }
        Ok(n)
    }

    fn len(&self) -> Result<u64, VmError> {
        Ok(self.data.len() as u64)
    }
}

/// A file whose every operation fails.
#[derive(Clone, Debug)]
struct BrokenFile;

impl VmFile for BrokenFile {
    fn dup(&self) -> BrokenFile {
        BrokenFile
    }

    fn read_at(&self, _buf: &mut Vec<u8>, _offset: u64) -> Result<usize, VmError> {
        Err(VmError::Io)
    }

    fn len(&self) -> Result<u64, VmError> {
        Err(VmError::Io)
    }
}

/// A file that reports a length but fails every read.
#[derive(Clone, Debug)]
struct ReadlessFile {
    len: u64,
}

impl VmFile for ReadlessFile {
    fn dup(&self) -> ReadlessFile {
        ReadlessFile { len: self.len }
    }

    fn read_at(&self, _buf: &mut Vec<u8>, _offset: u64) -> Result<usize, VmError> {
        Err(VmError::Io)
    }

    fn len(&self) -> Result<u64, VmError> {
        Ok(self.len)
    }
}

fn range(start: usize, end: usize) -> VirtAddrRange {
    VirtAddrRange::new(start, end)
}

#[test]
fn page_sizes() {
    assert_eq!(PageSize::Size4K.size(), 0x1000);
    assert_eq!(PageSize::Size2M.size(), 0x20_0000);
    assert_eq!(PageSize::Size1G.size(), 0x4000_0000);
}

#[test]
fn align_down_rounds_to_page() {
    assert_eq!(align_down(0x1234, 0x1000), 0x1000);
    assert_eq!(align_down(0x1000, 0x1000), 0x1000);
    assert_eq!(align_down(0xfff, 0x1000), 0);
    assert_eq!(align_down(0x20_0001, 0x20_0000), 0x20_0000);
}

#[test]
fn range_contains_is_half_open() {
    let r = range(0x1000, 0x2000);
    assert!(!r.contains(0xfff));
    assert!(r.contains(0x1000));
    assert!(r.contains(0x1fff));
    assert!(!r.contains(0x2000));
}

#[test]
fn range_overlap_needs_shared_address() {
    let r = range(0x1000, 0x3000);
    assert!(r.overlaps(&range(0x2000, 0x4000)));
    assert!(r.overlaps(&range(0x0, 0x1001)));
    assert!(!r.overlaps(&range(0x3000, 0x4000)));
    assert!(!r.overlaps(&range(0x0, 0x1000)));
    // An empty range holds no address, so it overlaps nothing.
    assert!(!r.overlaps(&range(0x2000, 0x2000)));
    assert!(!range(0x2000, 0x2000).overlaps(&r));
}

#[test]
fn range_from_start_size() {
    let r = VirtAddrRange::from_start_size(0x1000, 0x3000);
    assert_eq!(r.start, 0x1000);
    assert_eq!(r.end, 0x4000);
}

#[test]
fn region_contains_and_overlaps() {
    let region = MmapRegion::new(range(0x1000, 0x3000), MemFile::pages(3), 0, PageSize::Size4K);
    assert!(region.contains(0x1000));
    assert!(region.contains(0x2fff));
    assert!(!region.contains(0x3000));
    assert!(region.overlaps(&range(0x2000, 0x5000)));
    assert!(!region.overlaps(&range(0x3000, 0x5000)));
}

#[test]
fn split_disjoint_range_is_noop() {
    let region = MmapRegion::new(range(0x1000, 0x3000), MemFile::pages(3), 0, PageSize::Size4K);
    let (before, overlap, after) = region.split_at_range(&range(0x4000, 0x6000));
    assert!(before.is_none());
    assert!(overlap.is_none());
    assert!(after.is_none());
    // The region itself is untouched.
    assert_eq!(region.range, range(0x1000, 0x3000));
    assert_eq!(region.offset, 0);
}

#[test]
fn split_middle_yields_three_segments() {
    let region =
        MmapRegion::new(range(0x1000, 0x4000), MemFile::pages(4), 0x1000, PageSize::Size4K);
    let (before, overlap, after) = region.split_at_range(&range(0x2000, 0x3000));
    let before = before.expect("before segment");
    let overlap = overlap.expect("overlap segment");
    let after = after.expect("after segment");
    assert_eq!(before.range, range(0x1000, 0x2000));
    assert_eq!(overlap.range, range(0x2000, 0x3000));
    assert_eq!(after.range, range(0x3000, 0x4000));
    // Offset correctness: each segment's offset is the parent's offset
    // shifted by the distance between the starts.
    assert_eq!(before.offset, 0x1000);
    assert_eq!(overlap.offset, 0x2000);
    assert_eq!(after.offset, 0x3000);
    assert_eq!(before.align, PageSize::Size4K);
    assert_eq!(overlap.align, PageSize::Size4K);
    assert_eq!(after.align, PageSize::Size4K);
}

#[test]
fn split_conserves_populated_pages() {
    let mut region =
        MmapRegion::new(range(0x1000, 0x4000), MemFile::pages(3), 0, PageSize::Size4K);
    region.get_buf(0x1000).expect("load first page");
    region.get_buf(0x3000).expect("load third page");
    let (before, overlap, after) = region.split_at_range(&range(0x2000, 0x4000));
    let before = before.expect("before segment");
    let overlap = overlap.expect("overlap segment");
    assert!(after.is_none());
    assert_eq!(before.populated, vec![0x1000]);
    assert_eq!(overlap.populated, vec![0x3000]);
}

#[test]
fn split_left_edge_yields_two_segments() {
    let region = MmapRegion::new(range(0x1000, 0x4000), MemFile::pages(3), 0, PageSize::Size4K);
    let (before, overlap, after) = region.split_at_range(&range(0x0, 0x2000));
    assert!(before.is_none());
    let overlap = overlap.expect("overlap segment");
    let after = after.expect("after segment");
    assert_eq!(overlap.range, range(0x1000, 0x2000));
    assert_eq!(overlap.offset, 0);
    assert_eq!(after.range, range(0x2000, 0x4000));
    assert_eq!(after.offset, 0x1000);
}

#[test]
fn get_buf_loads_page_bytes() {
    let file = MemFile::pages(3);
    let expected: Vec<u8> = file.data[0x1000..0x2000].to_vec();
    let mut region = MmapRegion::new(range(0x1000, 0x4000), file, 0, PageSize::Size4K);
    let buf = region.get_buf(0x2234).expect("load");
    assert_eq!(buf.len(), 0x1000);
    assert_eq!(buf, expected);
    assert_eq!(region.populated, vec![0x2000]);
}

#[test]
fn get_buf_tail_page_is_short() {
    let mut region =
        MmapRegion::new(range(0x1000, 0x1800), MemFile::pages(1), 0, PageSize::Size4K);
    let buf = region.get_buf(0x1100).expect("load tail");
    assert_eq!(buf.len(), 0x800);
}

#[test]
fn get_buf_twice_reports_already_populated() {
    let mut region =
        MmapRegion::new(range(0x1000, 0x4000), MemFile::pages(3), 0, PageSize::Size4K);
    let buf = region.get_buf(0x1000).expect("first load");
    assert_eq!(buf.len(), 0x1000);
    // The second load of any address in the same page fails.
    assert_eq!(region.get_buf(0x1abc), Err(VmError::AlreadyPopulated));
    assert_eq!(region.populated, vec![0x1000]);
}

#[test]
fn get_buf_rejects_negative_file_offset() {
    let mut region =
        MmapRegion::new(range(0x1000, 0x4000), MemFile::pages(3), -0x2000, PageSize::Size4K);
    assert_eq!(region.get_buf(0x1000), Err(VmError::InvalidMapping));
    assert!(region.populated.is_empty());
}

#[test]
fn get_buf_rejects_offset_past_file_end() {
    let mut region =
        MmapRegion::new(range(0x1000, 0x4000), MemFile::pages(2), 0x1000, PageSize::Size4K);
    // The page at 0x1000 maps to file offset 0x1000, inside the 2-page
    // file; the page at 0x2000 maps to offset 0x2000, the file's end.
    assert!(region.get_buf(0x1000).is_ok());
    assert_eq!(region.get_buf(0x2000), Err(VmError::InvalidMapping));
    assert_eq!(region.populated, vec![0x1000]);
}

#[test]
fn get_buf_propagates_length_failure() {
    let mut region = MmapRegion::new(range(0x1000, 0x2000), BrokenFile, 0, PageSize::Size4K);
    assert_eq!(region.get_buf(0x1000), Err(VmError::Io));
    assert!(region.populated.is_empty());
}

#[test]
fn get_buf_propagates_read_failure() {
    let mut region =
        MmapRegion::new(range(0x1000, 0x2000), ReadlessFile { len: 0x4000 }, 0, PageSize::Size4K);
    assert_eq!(region.get_buf(0x1000), Err(VmError::Io));
    assert!(region.populated.is_empty());
}

#[test]
fn region_clone_copies_populated_set() {
    let mut region =
        MmapRegion::new(range(0x1000, 0x4000), MemFile::pages(3), 0, PageSize::Size4K);
    region.get_buf(0x2000).expect("load");
    let copy = region.clone();
    assert_eq!(copy.range, region.range);
    assert_eq!(copy.offset, region.offset);
    assert_eq!(copy.populated, vec![0x2000]);
    assert_eq!(copy.align, PageSize::Size4K);
}

#[test]
fn manager_find_region_by_address() {
    let mut mgr = VmaManager::new();
    mgr.add_region(MmapRegion::new(range(0x1000, 0x2000), MemFile::pages(1), 0, PageSize::Size4K))
        .expect("add");
    mgr.add_region(MmapRegion::new(range(0x5000, 0x7000), MemFile::pages(2), 0, PageSize::Size4K))
        .expect("add");
    assert_eq!(mgr.find_region(0x1234).expect("hit").range, range(0x1000, 0x2000));
    assert_eq!(mgr.find_region(0x5000).expect("hit").range, range(0x5000, 0x7000));
    assert_eq!(mgr.find_region(0x6fff).expect("hit").range, range(0x5000, 0x7000));
    assert!(mgr.find_region(0x2000).is_none());
    assert!(mgr.find_region(0x4fff).is_none());
    assert!(mgr.find_region(0x7000).is_none());
}

#[test]
fn manager_clear_discards_regions() {
    let mut mgr = VmaManager::new();
    mgr.add_region(MmapRegion::new(range(0x1000, 0x2000), MemFile::pages(1), 0, PageSize::Size4K))
        .expect("add");
    mgr.clear();
    assert!(mgr.find_region(0x1000).is_none());
}

#[test]
fn manager_default_is_empty() {
    let mgr: VmaManager<MemFile> = VmaManager::default();
    assert!(mgr.find_region(0).is_none());
}

#[test]
fn manager_remove_nonoverlapping_keeps_all() {
    let mut mgr = VmaManager::new();
    mgr.add_region(MmapRegion::new(range(0x1000, 0x2000), MemFile::pages(1), 0, PageSize::Size4K))
        .expect("add");
    let removed = mgr.remove_overlapped(range(0x8000, 0x9000));
    assert!(removed.is_empty());
    assert!(mgr.find_region(0x1000).is_some());
}

#[test]
fn manager_remove_whole_region() {
    let mut mgr = VmaManager::new();
    mgr.add_region(MmapRegion::new(range(0x1000, 0x2000), MemFile::pages(1), 0, PageSize::Size4K))
        .expect("add");
    let removed = mgr.remove_overlapped(range(0x0, 0x8000));
    assert_eq!(removed.len(), 1);
    assert_eq!(removed[0].range, range(0x1000, 0x2000));
    assert!(mgr.find_region(0x1000).is_none());
}

#[test]
fn manager_clone_shares_nothing() {
    let mut mgr = VmaManager::new();
    mgr.add_region(MmapRegion::new(range(0x1000, 0x2000), MemFile::pages(1), 0, PageSize::Size4K))
        .expect("add");
    let copy = mgr.clone();
    mgr.clear();
    assert!(copy.find_region(0x1000).is_some());
    assert!(mgr.find_region(0x1000).is_none());
}

#[test]
fn remove_overlapped_splits_and_returns_overlap() {
    // A three-page region over a three-page file; removing the middle page
    // leaves the first and last pages mapped and hands back the middle.
    let mut mgr = VmaManager::new();
    let region = MmapRegion::new(range(0x1000, 0x4000), MemFile::pages(3), 0, PageSize::Size4K);
    mgr.add_region(region).expect("add");

    let removed = mgr.remove_overlapped(range(0x2000, 0x3000));
    assert_eq!(removed.len(), 1);
    assert_eq!(removed[0].range, range(0x2000, 0x3000));
    assert_eq!(removed[0].offset, 0x1000);

    let before = mgr.find_region(0x1000).expect("before kept");
    assert_eq!(before.range, range(0x1000, 0x2000));
    assert_eq!(before.offset, 0);
    let after = mgr.find_region(0x3000).expect("after kept");
    assert_eq!(after.range, range(0x3000, 0x4000));
    assert_eq!(after.offset, 0x2000);
    // The removed page is no longer mapped.
    assert!(mgr.find_region(0x2000).is_none());
    assert!(mgr.find_region(0x2fff).is_none());
}

#[test]
fn remove_across_two_regions() {
    // Two adjacent regions; removing a range crossing both returns both
    // overlap segments and keeps the disjoint remainders.
    let mut mgr = VmaManager::new();
    mgr.add_region(MmapRegion::new(range(0x1000, 0x3000), MemFile::pages(2), 0, PageSize::Size4K))
        .expect("add");
    mgr.add_region(MmapRegion::new(range(0x3000, 0x5000), MemFile::pages(2), 0, PageSize::Size4K))
        .expect("add");

    let removed = mgr.remove_overlapped(range(0x2000, 0x4000));
    assert_eq!(removed.len(), 2);
    assert_eq!(removed[0].range, range(0x2000, 0x3000));
    assert_eq!(removed[0].offset, 0x1000);
    assert_eq!(removed[1].range, range(0x3000, 0x4000));
    assert_eq!(removed[1].offset, 0);

    assert_eq!(mgr.find_region(0x1000).expect("left kept").range, range(0x1000, 0x2000));
    assert_eq!(mgr.find_region(0x4000).expect("right kept").range, range(0x4000, 0x5000));
    for addr in [0x2000usize, 0x2fff, 0x3000, 0x3fff] {
        assert!(mgr.find_region(addr).is_none());
    }
}

#[test]
fn remove_overlapped_carries_population() {
    let mut mgr = VmaManager::new();
    let mut region =
        MmapRegion::new(range(0x1000, 0x4000), MemFile::pages(3), 0, PageSize::Size4K);
    region.get_buf(0x1000).expect("load");
    region.get_buf(0x2000).expect("load");
    mgr.add_region(region).expect("add");

    let removed = mgr.remove_overlapped(range(0x2000, 0x3000));
    assert_eq!(removed[0].populated, vec![0x2000]);
    assert_eq!(mgr.find_region(0x1000).expect("before").populated, vec![0x1000]);
    assert!(mgr.find_region(0x3000).expect("after").populated.is_empty());
}

#[test]
fn removed_region_loads_independently() {
    // After a split, the overlap segment still reads its own file bytes,
    // because its offset was shifted to keep the address-to-byte mapping.
    let file = MemFile::pages(3);
    let expected: Vec<u8> = file.data[0x1000..0x2000].to_vec();
    let mut mgr = VmaManager::new();
    mgr.add_region(MmapRegion::new(range(0x1000, 0x4000), file, 0, PageSize::Size4K))
        .expect("add");
    let mut removed = mgr.remove_overlapped(range(0x2000, 0x3000));
    let buf = removed[0].get_buf(0x2000).expect("load");
    assert_eq!(buf, expected);
}

#[test]
fn fault_path_loads_through_manager() {
    let mut mgr = VmaManager::new();
    mgr.add_region(MmapRegion::new(range(0x1000, 0x4000), MemFile::pages(3), 0, PageSize::Size4K))
        .expect("add");
    {
        let region = mgr.find_region_mut(0x2345).expect("mapped");
        let buf = region.get_buf(0x2345).expect("load");
        assert_eq!(buf.len(), 0x1000);
    }
    // The populated page was recorded in place.
    assert_eq!(mgr.find_region(0x2345).expect("mapped").populated, vec![0x2000]);
    assert!(mgr.find_region_mut(0x9000).is_none());
}

#[test]
fn is_empty_follows_length() {
    assert_eq!(MemFile { data: Vec::new() }.is_empty(), Ok(true));
    assert_eq!(MemFile::pages(1).is_empty(), Ok(false));
    assert_eq!(BrokenFile.is_empty(), Err(VmError::Io));
}
