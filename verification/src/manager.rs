//! An ordered collection of non-overlapping memory-mapped regions, exposing
//! address lookup and range-based removal that transparently splits the
//! regions it touches.

use crate::addr::VirtAddrRange;
use crate::file::{VmError, VmFile};
use crate::region::{models_of, MmapRegion, RegionModel};
use vstd::prelude::*;

verus! {

/// The parts of a region that stay in the manager when the range `q` is
/// removed: the region itself if it does not overlap `q`, otherwise its
/// before and after segments, in that order.
pub open spec fn kept_parts<F>(m: RegionModel<F>, q: VirtAddrRange) -> Seq<RegionModel<F>> {
    if !m.range.overlaps_spec(q) {
        seq![m]
    } else {
        (match m.split_before(q) {
            Some(b) => seq![b],
            None => Seq::<RegionModel<F>>::empty(),
        }) + (match m.split_after(q) {
            Some(a) => seq![a],
            None => Seq::<RegionModel<F>>::empty(),
        })
    }
}

/// The part of a region that leaves the manager when the range `q` is
/// removed: its overlap segment, if the two ranges overlap.
pub open spec fn removed_parts<F>(m: RegionModel<F>, q: VirtAddrRange) -> Seq<RegionModel<F>> {
    match m.split_overlap(q) {
        Some(o) => seq![o],
        None => Seq::<RegionModel<F>>::empty(),
    }
}

/// The regions a manager holding `ms` retains after the range `q` is
/// removed, each processed independently and in order.
pub open spec fn retained_seq<F>(ms: Seq<RegionModel<F>>, q: VirtAddrRange) -> Seq<RegionModel<F>>
    decreases ms.len(),
{
    if ms.len() == 0 {
        Seq::<RegionModel<F>>::empty()
    } else {
        kept_parts(ms[0], q) + retained_seq(ms.drop_first(), q)
    }
}

/// The overlap segments a manager holding `ms` hands back when the range `q`
/// is removed, in region order.
pub open spec fn removed_seq<F>(ms: Seq<RegionModel<F>>, q: VirtAddrRange) -> Seq<RegionModel<F>>
    decreases ms.len(),
{
    if ms.len() == 0 {
        Seq::<RegionModel<F>>::empty()
    } else {
        removed_parts(ms[0], q) + removed_seq(ms.drop_first(), q)
    }
}

proof fn lemma_retained_seq_push<F>(ms: Seq<RegionModel<F>>, x: RegionModel<F>, q: VirtAddrRange)
    ensures
        retained_seq(ms.push(x), q) == retained_seq(ms, q) + kept_parts(x, q),
    decreases ms.len(),
{
    let empty = Seq::<RegionModel<F>>::empty();
    if ms.len() == 0 {
        assert(ms.push(x)[0] == x);
        assert(ms.push(x).drop_first() =~= empty);
        assert(retained_seq(ms.push(x), q) == kept_parts(x, q) + retained_seq(empty, q));
        assert(retained_seq(empty, q) == empty);
        assert(kept_parts(x, q) + empty =~= kept_parts(x, q));
        assert(retained_seq(ms, q) + kept_parts(x, q) =~= kept_parts(x, q));
    } else {
        assert(ms.push(x)[0] == ms[0]);
        assert(ms.push(x).drop_first() =~= ms.drop_first().push(x));
        lemma_retained_seq_push(ms.drop_first(), x, q);
        assert(retained_seq(ms.push(x), q) == kept_parts(ms[0], q) + (retained_seq(
            ms.drop_first(),
            q,
        ) + kept_parts(x, q)));
        assert(retained_seq(ms, q) == kept_parts(ms[0], q) + retained_seq(ms.drop_first(), q));
        assert(kept_parts(ms[0], q) + (retained_seq(ms.drop_first(), q) + kept_parts(x, q))
            =~= (kept_parts(ms[0], q) + retained_seq(ms.drop_first(), q)) + kept_parts(x, q));
    }
}

proof fn lemma_removed_seq_push<F>(ms: Seq<RegionModel<F>>, x: RegionModel<F>, q: VirtAddrRange)
    ensures
        removed_seq(ms.push(x), q) == removed_seq(ms, q) + removed_parts(x, q),
    decreases ms.len(),
{
    let empty = Seq::<RegionModel<F>>::empty();
    if ms.len() == 0 {
        assert(ms.push(x)[0] == x);
        assert(ms.push(x).drop_first() =~= empty);
        assert(removed_seq(ms.push(x), q) == removed_parts(x, q) + removed_seq(empty, q));
        assert(removed_seq(empty, q) == empty);
        assert(removed_parts(x, q) + empty =~= removed_parts(x, q));
        assert(removed_seq(ms, q) + removed_parts(x, q) =~= removed_parts(x, q));
    } else {
        assert(ms.push(x)[0] == ms[0]);
        assert(ms.push(x).drop_first() =~= ms.drop_first().push(x));
        lemma_removed_seq_push(ms.drop_first(), x, q);
        assert(removed_seq(ms.push(x), q) == removed_parts(ms[0], q) + (removed_seq(
            ms.drop_first(),
            q,
        ) + removed_parts(x, q)));
        assert(removed_seq(ms, q) == removed_parts(ms[0], q) + removed_seq(ms.drop_first(), q));
        assert(removed_parts(ms[0], q) + (removed_seq(ms.drop_first(), q) + removed_parts(x, q))
            =~= (removed_parts(ms[0], q) + removed_seq(ms.drop_first(), q)) + removed_parts(
            x,
            q,
        ));
    }
}

/// No two of the regions' intervals intersect.
pub open spec fn pairwise_disjoint<F>(ms: Seq<RegionModel<F>>) -> bool {
    forall|i: int, j: int|
        0 <= i < ms.len() && 0 <= j < ms.len() && i != j ==> !#[trigger] ms[i].range.overlaps_spec(
            #[trigger] ms[j].range,
        )
}

/// The parts kept of one region lie inside it, avoid the removed range, and
/// are disjoint from each other.
proof fn lemma_kept_parts_props<F>(m: RegionModel<F>, q: VirtAddrRange)
    requires
        m.range.wf(),
        q.wf(),
    ensures
        forall|k: int|
            0 <= k < kept_parts(m, q).len() ==> (#[trigger] kept_parts(m, q)[k]).range.within(
                m.range,
            ),
        forall|k: int|
            0 <= k < kept_parts(m, q).len() ==> !(#[trigger] kept_parts(m,
                q,
            )[k]).range.overlaps_spec(q),
        pairwise_disjoint(kept_parts(m, q)),
{
    let ks = kept_parts(m, q);
    if m.range.overlaps_spec(q) {
        assert(forall|k: int|
            0 <= k < ks.len() ==> ks[k] == if k == 0 && m.split_before(q) is Some {
                m.split_before(q).unwrap()
            } else {
                m.split_after(q).unwrap()
            });
    } else {
        assert(ks[0] == m);
    }
}

/// Appending a region that overlaps none of the held regions preserves
/// disjointness. Together with the removal lemma below, any sequence of
/// additions and removals that individually keep the regions disjoint leaves
/// the whole collection disjoint.
pub proof fn lemma_add_region_disjoint<F>(ms: Seq<RegionModel<F>>, x: RegionModel<F>)
    requires
        pairwise_disjoint(ms),
        forall|i: int| 0 <= i < ms.len() ==> !(#[trigger] ms[i]).range.overlaps_spec(x.range),
    ensures
        pairwise_disjoint(ms.push(x)),
{
    let ps = ms.push(x);
    assert forall|i: int, j: int|
        0 <= i < ps.len() && 0 <= j < ps.len() && i != j implies !ps[i].range.overlaps_spec(
        ps[j].range,
    ) by {
        if i < ms.len() && j < ms.len() {
            assert(!ms[i].range.overlaps_spec(ms[j].range));
        } else if i < ms.len() {
            assert(!ms[i].range.overlaps_spec(x.range));
        } else {
            assert(!ms[j].range.overlaps_spec(x.range));
        }
    }
}

/// Disjointness is preserved: removing a range from a collection of
/// pairwise-disjoint regions retains regions that are still pairwise
/// disjoint, each lying inside one of the original regions and none of them
/// overlapping the removed range.
pub proof fn lemma_remove_overlapped_disjoint<F>(ms: Seq<RegionModel<F>>, q: VirtAddrRange)
    requires
        q.wf(),
        forall|i: int| 0 <= i < ms.len() ==> (#[trigger] ms[i]).range.wf(),
        pairwise_disjoint(ms),
    ensures
        pairwise_disjoint(retained_seq(ms, q)),
        forall|k: int|
            0 <= k < retained_seq(ms, q).len() ==> !(#[trigger] retained_seq(ms,
                q,
            )[k]).range.overlaps_spec(q),
        forall|k: int|
            0 <= k < retained_seq(ms, q).len() ==> exists|i: int|
                0 <= i < ms.len() && (#[trigger] retained_seq(ms, q)[k]).range.within(
                    ms[i].range,
                ),
    decreases ms.len(),
{
    if ms.len() > 0 {
        let head = ms[0];
        let rest = ms.drop_first();
        let ks = kept_parts(head, q);
        let rs = retained_seq(rest, q);
        assert(retained_seq(ms, q) == ks + rs);
        assert(forall|i: int| 0 <= i < rest.len() ==> rest[i] == ms[i + 1]);
        assert forall|i: int, j: int|
            0 <= i < rest.len() && 0 <= j < rest.len() && i != j implies !rest[
            i
        ].range.overlaps_spec(rest[j].range) by {
            assert(!ms[i + 1].range.overlaps_spec(ms[j + 1].range));
        }
        lemma_remove_overlapped_disjoint(rest, q);
        lemma_kept_parts_props(head, q);
        assert forall|k: int| 0 <= k < retained_seq(ms, q).len() implies exists|i: int|
            0 <= i < ms.len() && (#[trigger] retained_seq(ms, q)[k]).range.within(
                ms[i].range,
            ) by {
            if k < ks.len() {
                assert(retained_seq(ms, q)[k] == ks[k]);
                assert(retained_seq(ms, q)[k].range.within(ms[0].range));
            } else {
                let i = choose|i: int|
                    0 <= i < rest.len() && rs[k - ks.len()].range.within(rest[i].range);
                assert(retained_seq(ms, q)[k].range.within(ms[i + 1].range));
            }
        }
        assert forall|k: int, l: int|
            0 <= k < retained_seq(ms, q).len() && 0 <= l < retained_seq(ms, q).len() && k
                != l implies !#[trigger] retained_seq(ms, q)[k].range.overlaps_spec(
            #[trigger] retained_seq(ms, q)[l].range,
        ) by {
            let x = retained_seq(ms, q)[k];
            let y = retained_seq(ms, q)[l];
            if k < ks.len() && l < ks.len() {
                assert(!ks[k].range.overlaps_spec(ks[l].range));
            } else if k >= ks.len() && l >= ks.len() {
                assert(!rs[k - ks.len()].range.overlaps_spec(rs[l - ks.len()].range));
            } else {
                let (a, b) = if k < ks.len() {
                    (k, l)
                } else {
                    (l, k)
                };
                let inner = retained_seq(ms, q)[a];
                let outer_elem = retained_seq(ms, q)[b];
                assert(inner == ks[a]);
                assert(inner.range.within(ms[0].range));
                let i = choose|i: int|
                    0 <= i < rest.len() && rs[b - ks.len()].range.within(rest[i].range);
                assert(outer_elem.range.within(ms[i + 1].range));
                assert(!ms[0].range.overlaps_spec(ms[i + 1].range));
            }
        }
    }
}

/// Manager for virtual memory areas with file backing: an ordered collection
/// of regions, viewed as the sequence of their models.
pub struct VmaManager<F: VmFile> {
    /// Collection of memory-mapped regions.
    regions: Vec<MmapRegion<F>>,
}

impl<F: VmFile> View for VmaManager<F> {
    type V = Seq<RegionModel<F>>;

    closed spec fn view(&self) -> Seq<RegionModel<F>> {
        models_of(self.regions@)
    }
}

impl<F: VmFile> Clone for VmaManager<F> {
    /// Duplicate the manager by duplicating each held region.
    #[verifier::loop_isolation(false)]
    fn clone(&self) -> (r: Self)
        ensures
            r@ == self@,
            self.wf() ==> r.wf(),
    {
        let mut regions: Vec<MmapRegion<F>> = Vec::new();
        let mut i: usize = 0;
        while i < self.regions.len()
            invariant
                i <= self.regions@.len(),
                regions@.len() == i,
                forall|j: int|
                    0 <= j < i ==> (#[trigger] regions@[j])@ == self.regions@[j]@ && (
                    self.regions@[j].wf() ==> regions@[j].wf()),
            decreases self.regions@.len() - i,
        {
            let reg = &self.regions[i];
            regions.push(reg.clone());
            i += 1;
        }
        let r = VmaManager { regions };
        proof {
            assert(r@ =~= self@);
        }
        r
    }
}

impl<F: VmFile> Default for VmaManager<F> {
    /// An empty manager.
    fn default() -> (r: Self)
        ensures
            r@ == Seq::<RegionModel<F>>::empty(),
            r.wf(),
    {
        Self::new()
    }
}

impl<F: VmFile> VmaManager<F> {
    /// Every held region satisfies the region invariant.
    pub closed spec fn wf(self) -> bool {
        forall|i: int|
            0 <= i < self.regions@.len() ==> (#[trigger] self.regions@[i]).wf()
    }

    /// Create a new, empty VMA manager.
    pub fn new() -> (r: Self)
        ensures
            r@ == Seq::<RegionModel<F>>::empty(),
            r.wf(),
    {
        let r = VmaManager { regions: Vec::new() };
        proof {
            assert(r@ =~= Seq::<RegionModel<F>>::empty());
        }
        r
    }

    /// Discard all managed regions.
    pub fn clear(&mut self)
        ensures
            final(self)@ == Seq::<RegionModel<F>>::empty(),
            final(self).wf(),
    {
        self.regions.clear();
        proof {
            assert(self@ =~= Seq::<RegionModel<F>>::empty());
        }
    }

    /// Append a region to the manager. Always succeeds; disjointness from
    /// the regions already held is the caller's responsibility, typically
    /// discharged by removing the target range first.
    pub fn add_region(&mut self, region: MmapRegion<F>) -> (r: Result<(), VmError>)
        ensures
            r is Ok,
            final(self)@ == old(self)@.push(region@),
            old(self).wf() && region.wf() ==> final(self).wf(),
    {
        let ghost pre = self@;
        self.regions.push(region);
        proof {
            assert(self@ =~= pre.push(region@));
        }
        Ok(())
    }

    /// Find the first region (in insertion order) containing the given
    /// virtual address. Because the held regions are kept disjoint, the
    /// first such region is the only one.
    #[verifier::loop_isolation(false)]
    pub fn find_region(&self, vaddr: usize) -> (r: Option<&MmapRegion<F>>)
        ensures
            match r {
                Some(reg) => exists|i: int|
                    {
                        &&& 0 <= i < self@.len()
                        &&& #[trigger] self@[i] == reg@
                        &&& reg@.range.contains_spec(vaddr)
                        &&& forall|j: int|
                            0 <= j < i ==> !(#[trigger] self@[j]).range.contains_spec(vaddr)
                    },
                None => forall|i: int|
                    0 <= i < self@.len() ==> !(#[trigger] self@[i]).range.contains_spec(vaddr),
            },
    {
        let mut i: usize = 0;
        while i < self.regions.len()
            invariant
                i <= self.regions@.len(),
                forall|j: int| 0 <= j < i ==> !(#[trigger] self@[j]).range.contains_spec(vaddr),
            decreases self.regions@.len() - i,
        {
            let reg = &self.regions[i];
            if reg.contains(vaddr) {
                proof {
                    assert(self@[i as int] == reg@);
                    assert(self@[i as int].range.contains_spec(vaddr));
                }
                return Some(reg);
            }
            i += 1;
        }
        None
    }

    /// Find the first region containing the given virtual address, borrowed
    /// mutably so the caller can load pages into it in place.
    #[verifier::loop_isolation(false)]
    pub fn find_region_mut(&mut self, vaddr: usize) -> (r: Option<&mut MmapRegion<F>>)
        ensures
            match r {
                Some(reg) => exists|i: int|
                    {
                        &&& 0 <= i < old(self)@.len()
                        &&& #[trigger] old(self)@[i] == (*reg)@
                        &&& (*reg)@.range.contains_spec(vaddr)
                        &&& forall|j: int|
                            0 <= j < i ==> !(#[trigger] old(self)@[j]).range.contains_spec(vaddr)
                        &&& old(self).wf() ==> (*reg).wf()
                        &&& final(self)@.len() == old(self)@.len()
                        &&& final(self)@[i] == (*final(reg))@
                        &&& forall|j: int|
                            0 <= j < old(self)@.len() && j != i ==> final(self)@[j] == old(
                                self,
                            )@[j]
                        &&& old(self).wf() && (*final(reg)).wf() ==> final(self).wf()
                    },
                None => {
                    &&& *final(self) == *old(self)
                    &&& forall|i: int|
                        0 <= i < old(self)@.len() ==> !(#[trigger] old(
                            self,
                        )@[i]).range.contains_spec(vaddr)
                },
            },
    {
        let mut i: usize = 0;
        while i < self.regions.len()
            invariant
                *self == *old(self),
                i <= self.regions@.len(),
                forall|j: int|
                    0 <= j < i ==> !(#[trigger] old(self)@[j]).range.contains_spec(vaddr),
            decreases self.regions@.len() - i,
        {
            let hit = self.regions[i].contains(vaddr);
            if hit {
                proof {
                    assert(old(self)@[i as int] == self.regions@[i as int]@);
                    assert(old(self)@[i as int].range.contains_spec(vaddr));
                }
                let reg = &mut self.regions[i];
                return Some(reg);
            }
            i += 1;
        }
        None
    }

    /// Remove every part of every held region that overlaps the given range.
    ///
    /// A region that does not overlap the range is kept unchanged. One that
    /// overlaps it is split: the overlap segment moves into the returned
    /// list, and the before and after segments (if any) stay in the manager
    /// in its place.
    #[verifier::loop_isolation(false)]
    pub fn remove_overlapped(&mut self, vaddr_range: VirtAddrRange) -> (removed: Vec<
        MmapRegion<F>,
    >)
        requires
            old(self).wf(),
            vaddr_range.wf(),
            forall|i: int|
                0 <= i < old(self)@.len() ==> (#[trigger] old(self)@[i]).split_cuts_aligned(
                    vaddr_range,
                ),
        ensures
            final(self)@ == retained_seq(old(self)@, vaddr_range),
            models_of(removed@) == removed_seq(old(self)@, vaddr_range),
            final(self).wf(),
            forall|i: int| 0 <= i < removed@.len() ==> (#[trigger] removed@[i]).wf(),
    {
        let ghost orig: Seq<RegionModel<F>> = self@;
        
        let mut removed: Vec<MmapRegion<F>> = Vec::new();
        let mut retained: Vec<MmapRegion<F>> = Vec::new();
        let ghost mut i: int = 0;
        proof {
            assert(models_of(retained@) =~= retained_seq(orig.take(0), vaddr_range));
            assert(models_of(removed@) =~= removed_seq(orig.take(0), vaddr_range));
            assert(models_of(self.regions@) =~= orig.skip(0));
        }
        while self.regions.len() > 0
            invariant
                0 <= i <= orig.len(),
                self.regions@.len() == orig.len() - i,
                models_of(self.regions@) == orig.skip(i),
                forall|j: int|
                    0 <= j < self.regions@.len() ==> (#[trigger] self.regions@[j]).wf(),
                models_of(retained@) == retained_seq(orig.take(i), vaddr_range),
                models_of(removed@) == removed_seq(orig.take(i), vaddr_range),
                forall|j: int| 0 <= j < retained@.len() ==> (#[trigger] retained@[j]).wf(),
                forall|j: int| 0 <= j < removed@.len() ==> (#[trigger] removed@[j]).wf(),
            decreases self.regions@.len(),
        {
            let ghost pre_regions = self.regions@;
            let ghost pre_retained = retained@;
            let ghost pre_removed = removed@;
            let region = self.regions.remove(0);
            proof {
                assert(models_of(pre_regions)[0] == orig.skip(i)[0]);
                assert(region@ == orig[i]);
                assert(self.regions@ =~= pre_regions.drop_first());
                assert(forall|j: int|
                    0 <= j < self.regions@.len() ==> (#[trigger] self.regions@[j])
                        == pre_regions[j + 1]);
                assert forall|j: int| 0 <= j < self.regions@.len() implies models_of(
                    self.regions@,
                )[j] == orig.skip(i + 1)[j] by {
                    assert(models_of(pre_regions)[j + 1] == orig.skip(i)[j + 1]);
                }
                assert(models_of(self.regions@) =~= orig.skip(i + 1));
                assert(orig.take(i + 1) =~= orig.take(i).push(orig[i]));
                lemma_retained_seq_push(orig.take(i), orig[i], vaddr_range);
                lemma_removed_seq_push(orig.take(i), orig[i], vaddr_range);
            }
            if region.overlaps(&vaddr_range) {
                let (before, overlap, after) = region.split_at_range(&vaddr_range);
                if let Some(o) = overlap {
                    removed.push(o);
                }
                if let Some(b) = before {
                    retained.push(b);
                }
                if let Some(a) = after {
                    retained.push(a);
                }
                proof {
                    assert(models_of(retained@) =~= retained_seq(
                        orig.take(i + 1),
                        vaddr_range,
                    ));
                    assert(models_of(removed@) =~= removed_seq(
                        orig.take(i + 1),
                        vaddr_range,
                    ));
                }
            } else {
                retained.push(region);
                proof {
                    assert(models_of(retained@) =~= retained_seq(
                        orig.take(i + 1),
                        vaddr_range,
                    ));
                    assert(models_of(removed@) =~= removed_seq(
                        orig.take(i + 1),
                        vaddr_range,
                    ));
                }
            }
            proof {
                i = i + 1;
            }
        }
        proof {
            assert(orig.take(orig.len() as int) =~= orig);
        }
        self.regions = retained;
        proof {
            assert(self@ == retained_seq(orig, vaddr_range));
        }
        removed
    }
}

} // verus!

