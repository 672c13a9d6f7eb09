//! Address spaces: regions of eagerly backed pages, and byte access to them.

use vstd::prelude::*;
use crate::config::PAGE_SIZE;
use crate::error::KernelError;

verus! {

/// What a mapping allows.
#[derive(Clone, Copy, Debug, PartialEq, Eq, Structural)]
pub struct MapPermission {
    pub r: bool,
    pub w: bool,
    pub x: bool,
    pub u: bool,
}

/// One page as contracts see it.
pub struct PageView {
    pub perm: MapPermission,
    pub bytes: Seq<u8>,
}

/// An address space as contracts see it: the mapped virtual page numbers and their pages.
pub type PageMap = Map<int, PageView>;

/// One past the last virtual page number.
pub open spec fn vpn_limit() -> int {
    usize::MAX / PAGE_SIZE + 1
}

/// The page that holds address `va`.
pub open spec fn vpn_floor(va: int) -> int {
    va / (PAGE_SIZE as int)
}

/// The first page that starts at or after address `va`.
pub open spec fn vpn_ceil(va: int) -> int {
    (va + PAGE_SIZE - 1) / (PAGE_SIZE as int)
}

/// A page of zero bytes.
pub open spec fn zero_bytes() -> Seq<u8> {
    Seq::new(PAGE_SIZE as nat, |i: int| 0u8)
}

/// No page of `[s, e)` is mapped.
pub open spec fn range_unmapped(m: PageMap, s: int, e: int) -> bool {
    forall|vpn: int| s <= vpn < e ==> !#[trigger] m.contains_key(vpn)
}

/// Every page of `[s, e)` is mapped.
pub open spec fn range_mapped(m: PageMap, s: int, e: int) -> bool {
    forall|vpn: int| s <= vpn < e ==> #[trigger] m.contains_key(vpn)
}

/// `m` with the pages of `[s, e)` mapped to zero pages of permission `perm`.
pub open spec fn map_range(m: PageMap, s: int, e: int, perm: MapPermission) -> PageMap {
    Map::new(
        |vpn: int| m.contains_key(vpn) || s <= vpn < e,
        |vpn: int|
            if s <= vpn < e {
                PageView { perm, bytes: zero_bytes() }
            } else {
                m[vpn]
            },
    )
}

/// `m` without the pages of `[s, e)`.
pub open spec fn unmap_range(m: PageMap, s: int, e: int) -> PageMap {
    Map::new(|vpn: int| m.contains_key(vpn) && !(s <= vpn < e), |vpn: int| m[vpn])
}

/// One physical frame: a page of bytes that its region owns.
pub struct Frame {
    pub bytes: Vec<u8>,
}

impl Frame {
    /// The frame holds one page of bytes.
    pub open spec fn wf(&self) -> bool {
        self.bytes.len() == PAGE_SIZE
    }

    /// A fresh frame of zero bytes.
    pub fn zeroed() -> (f: Frame)
        ensures
            f.wf(),
            f.bytes@ == zero_bytes(),
    {
        let bytes: Vec<u8> = vec![0u8; PAGE_SIZE];
        assert(bytes@ =~= zero_bytes());
        Frame { bytes }
    }

    /// A frame with the same bytes.
    pub fn duplicate(&self) -> (f: Frame)
        requires
            self.wf(),
        ensures
            f.wf(),
            f.bytes@ == self.bytes@,
    {
        let mut bytes: Vec<u8> = Vec::new();
        let mut i: usize = 0;
        while i < PAGE_SIZE
            invariant
                i <= PAGE_SIZE,
                self.bytes.len() == PAGE_SIZE,
                bytes@ == self.bytes@.subrange(0, i as int),
            decreases PAGE_SIZE - i,
        {
            bytes.push(self.bytes[i]);
            i = i + 1;
            assert(bytes@ =~= self.bytes@.subrange(0, i as int));
        }
        assert(bytes@ =~= self.bytes@);
        Frame { bytes }
    }
}

/// One memory region: a run of consecutive virtual pages with one permission
/// set, each page backed by a frame from the moment the region exists.
pub struct MapArea {
    pub start_vpn: usize,
    pub perm: MapPermission,
    pub frames: Vec<Frame>,
}

impl MapArea {
    /// One past the last page of the region.
    pub open spec fn end_vpn(&self) -> int {
        self.start_vpn + self.frames.len()
    }

    /// Page `vpn` lies in the region.
    pub open spec fn contains(&self, vpn: int) -> bool {
        self.start_vpn <= vpn < self.end_vpn()
    }

    /// Page `vpn` of the region.
    pub open spec fn page(&self, vpn: int) -> PageView {
        PageView { perm: self.perm, bytes: self.frames[vpn - self.start_vpn].bytes@ }
    }

    /// The region is not empty, ends within the address space, and each of
    /// its frames holds one page.
    pub open spec fn wf(&self) -> bool {
        &&& self.frames.len() > 0
        &&& self.end_vpn() <= vpn_limit()
        &&& forall|i: int| 0 <= i < self.frames.len() ==> (#[trigger] self.frames[i]).wf()
    }
}

/// The index of the last region of `areas` that holds `vpn`, or -1.
pub open spec fn area_index(areas: Seq<MapArea>, vpn: int) -> int
    decreases areas.len(),
{
    if areas.len() == 0 {
        -1
    } else if areas.last().contains(vpn) {
        areas.len() - 1
    } else {
        area_index(areas.drop_last(), vpn)
    }
}

/// No two regions of `areas` share a page.
pub open spec fn areas_disjoint(areas: Seq<MapArea>) -> bool {
    forall|i: int, j: int|
        0 <= i < j < areas.len() ==> (#[trigger] areas[i]).end_vpn() <= (#[trigger] areas[j]).start_vpn
            || areas[j].end_vpn() <= areas[i].start_vpn
}

/// What `area_index` finds is a region that holds the page; it finds none
/// only if no region holds it.
pub proof fn lemma_area_index_range(areas: Seq<MapArea>, vpn: int)
    ensures
        -1 <= area_index(areas, vpn) < areas.len(),
        area_index(areas, vpn) >= 0 ==> areas[area_index(areas, vpn)].contains(vpn),
        area_index(areas, vpn) == -1 ==> forall|i: int|
            0 <= i < areas.len() ==> !(#[trigger] areas[i]).contains(vpn),
    decreases areas.len(),
{
    if areas.len() > 0 && !areas.last().contains(vpn) {
        lemma_area_index_range(areas.drop_last(), vpn);
        if area_index(areas, vpn) == -1 {
            assert forall|i: int| 0 <= i < areas.len() implies !(#[trigger] areas[i]).contains(
                vpn,
            ) by {
                if i < areas.len() - 1 {
                    assert(areas.drop_last()[i] == areas[i]);
                }
            }
        }
    }
}

/// Among regions that share no page, the one that holds a page is the one that `area_index` finds.
pub proof fn lemma_area_index_unique(areas: Seq<MapArea>, vpn: int, i: int)
    requires
        areas_disjoint(areas),
        0 <= i < areas.len(),
        areas[i].contains(vpn),
    ensures
        area_index(areas, vpn) == i,
{
    lemma_area_index_range(areas, vpn);
    let k = area_index(areas, vpn);
    if k == -1 {
        assert(!areas[i].contains(vpn));
    } else if k != i {
        assert(areas[k].contains(vpn));
        if k < i {
            assert(areas[k].end_vpn() <= areas[i].start_vpn || areas[i].end_vpn()
                <= areas[k].start_vpn);
        } else {
            assert(areas[i].end_vpn() <= areas[k].start_vpn || areas[k].end_vpn()
                <= areas[i].start_vpn);
        }
    }
}

/// A region added last is found for its own pages; for the others, what was found before.
pub proof fn lemma_area_index_push(areas: Seq<MapArea>, a: MapArea, vpn: int)
    ensures
        area_index(areas.push(a), vpn) == if a.contains(vpn) {
            areas.len() as int
        } else {
            area_index(areas, vpn)
        },
{
    assert(areas.push(a).drop_last() =~= areas);
    assert(areas.push(a).last() == a);
}

/// The pages `[start, end)` with one permission: a region without its frames.
pub struct Extent {
    pub start: int,
    pub end: int,
    pub perm: MapPermission,
}

/// The pages and the permission of region `a`.
pub open spec fn extent(a: MapArea) -> Extent {
    Extent { start: a.start_vpn as int, end: a.end_vpn(), perm: a.perm }
}

/// The pages and permissions of the regions of `areas`, in their order.
pub open spec fn extents(areas: Seq<MapArea>) -> Seq<Extent> {
    Seq::new(areas.len(), |i: int| extent(areas[i]))
}

/// What is left of `x` without the pages of `[s, e)`: `x` itself if they
/// share no page; else the pages of `x` below `s`, if there are any, and
/// those from `e` on, if there are any.
pub open spec fn cut(x: Extent, s: int, e: int) -> Seq<Extent> {
    if s >= e || x.end <= s || e <= x.start {
        seq![x]
    } else {
        (if x.start < s {
            seq![Extent { start: x.start, end: s, perm: x.perm }]
        } else {
            Seq::<Extent>::empty()
        }) + (if e < x.end {
            seq![Extent { start: e, end: x.end, perm: x.perm }]
        } else {
            Seq::<Extent>::empty()
        })
    }
}

/// What is left of each of `xs` without the pages of `[s, e)`, in the order of `xs`.
pub open spec fn cut_all(xs: Seq<Extent>, s: int, e: int) -> Seq<Extent>
    decreases xs.len(),
{
    if xs.len() == 0 {
        Seq::empty()
    } else {
        cut_all(xs.drop_last(), s, e) + cut(xs.last(), s, e)
    }
}

/// Cutting an empty range out of regions leaves them as they are.
pub proof fn lemma_cut_nothing(xs: Seq<Extent>, s: int, e: int)
    requires
        s >= e,
    ensures
        cut_all(xs, s, e) == xs,
    decreases xs.len(),
{
    if xs.len() > 0 {
        lemma_cut_nothing(xs.drop_last(), s, e);
        assert(xs.drop_last() + seq![xs.last()] =~= xs);
    } else {
        assert(cut_all(xs, s, e) =~= xs);
    }
}

/// Lists of regions that cover the same pages have the same extents.
pub proof fn lemma_same_shape_extents(a: Seq<MapArea>, b: Seq<MapArea>)
    requires
        same_shape(a, b),
    ensures
        extents(a) == extents(b),
{
    assert forall|i: int| 0 <= i < a.len() implies extent(a[i]) == extent(b[i]) by {
        assert(a[i].start_vpn == b[i].start_vpn);
    }
    assert(extents(a) =~= extents(b));
}

/// The page map that a sequence of regions stands for.
pub open spec fn areas_view(areas: Seq<MapArea>) -> PageMap {
    Map::new(
        |vpn: int| area_index(areas, vpn) >= 0,
        |vpn: int| areas[area_index(areas, vpn)].page(vpn),
    )
}

/// An address space: the regions mapped into it.
pub struct MemorySet {
    pub areas: Vec<MapArea>,
}

impl View for MemorySet {
    type V = PageMap;

    /// The mapped pages of the address space.
    open spec fn view(&self) -> PageMap {
        areas_view(self.areas@)
    }
}

impl MemorySet {
    /// Regions are well formed and never overlap.
    pub open spec fn wf(&self) -> bool {
        &&& forall|i: int| 0 <= i < self.areas.len() ==> (#[trigger] self.areas[i]).wf()
        &&& areas_disjoint(self.areas@)
    }

    /// An address space with nothing mapped.
    pub fn new_bare() -> (ms: MemorySet)
        ensures
            ms.wf(),
            ms@ == Map::<int, PageView>::empty(),
            ms.areas@.len() == 0,
    {
        let ms = MemorySet { areas: Vec::new() };
        assert(ms@ =~= Map::<int, PageView>::empty());
        ms
    }

    /// The region that holds page `vpn`, if it is mapped.
    pub fn find_area(&self, vpn: usize) -> (r: Option<usize>)
        requires
            self.wf(),
        ensures
            match r {
                Some(i) => i < self.areas.len() && self.areas[i as int].contains(vpn as int) && i
                    == area_index(self.areas@, vpn as int),
                None => area_index(self.areas@, vpn as int) == -1,
            },
            r is Some <==> self@.contains_key(vpn as int),
    {
        let mut i: usize = 0;
        while i < self.areas.len()
            invariant
                self.wf(),
                i <= self.areas.len(),
                forall|j: int| 0 <= j < i ==> !(#[trigger] self.areas[j]).contains(vpn as int),
            decreases self.areas.len() - i,
        {
            let a = &self.areas[i];
            if a.start_vpn <= vpn && vpn - a.start_vpn < a.frames.len() {
                proof {
                    lemma_area_index_unique(self.areas@, vpn as int, i as int);
                }
                return Some(i);
            }
            i = i + 1;
        }
        proof {
            lemma_area_index_range(self.areas@, vpn as int);
        }
        None
    }

    /// Whether no page of `[s, e)` is mapped.
    pub fn range_free(&self, s: usize, e: usize) -> (r: bool)
        requires
            self.wf(),
        ensures
            r == range_unmapped(self@, s as int, e as int),
    {
        let mut i: usize = 0;
        while i < self.areas.len()
            invariant
                self.wf(),
                i <= self.areas.len(),
                forall|j: int|
                    0 <= j < i ==> (#[trigger] self.areas[j]).end_vpn() <= s || e
                        <= self.areas[j].start_vpn || e <= s,
            decreases self.areas.len() - i,
        {
            let a = &self.areas[i];
            if s < e && a.start_vpn < e && s < a.start_vpn + a.frames.len() {
                proof {
                    let vpn: int = if a.start_vpn <= s {
                        s as int
                    } else {
                        a.start_vpn as int
                    };
                    lemma_area_index_unique(self.areas@, vpn, i as int);
                    assert(self@.contains_key(vpn));
                }
                return false;
            }
            i = i + 1;
        }
        proof {
            assert forall|vpn: int| s <= vpn < e implies !#[trigger] self@.contains_key(vpn) by {
                lemma_area_index_range(self.areas@, vpn);
                let k = area_index(self.areas@, vpn);
                if k >= 0 {
                    assert(self.areas[k].contains(vpn));
                }
            }
        }
        true
    }

    /// Whether every page of `[s, e)` is mapped.
    pub fn range_all_mapped(&self, s: usize, e: usize) -> (r: bool)
        requires
            self.wf(),
        ensures
            r == range_mapped(self@, s as int, e as int),
    {
        let mut vpn: usize = s;
        while vpn < e
            invariant
                self.wf(),
                s <= vpn,
                range_mapped(self@, s as int, vpn as int),
            decreases e - vpn,
        {
            if self.find_area(vpn).is_none() {
                return false;
            }
            vpn = vpn + 1;
        }
        true
    }

    /// Maps the pages of `[s, e)` as one new region of zeroed frames.
    pub fn insert_framed_area(&mut self, s: usize, e: usize, perm: MapPermission)
        requires
            old(self).wf(),
            s < e <= vpn_limit(),
            range_unmapped(old(self)@, s as int, e as int),
        ensures
            final(self).wf(),
            final(self)@ == map_range(old(self)@, s as int, e as int, perm),
            extents(final(self).areas@) == extents(old(self).areas@).push(
                Extent { start: s as int, end: e as int, perm },
            ),
    {
        let mut frames: Vec<Frame> = Vec::new();
        let n: usize = e - s;
        while frames.len() < n
            invariant
                frames.len() <= n,
                forall|i: int|
                    0 <= i < frames.len() ==> (#[trigger] frames[i]).wf() && frames[i].bytes@
                        == zero_bytes(),
            decreases n - frames.len(),
        {
            frames.push(Frame::zeroed());
        }
        let area = MapArea { start_vpn: s, perm, frames };
        proof {
            let areas = self.areas@;
            assert forall|i: int| 0 <= i < areas.len() implies (#[trigger] areas[i]).end_vpn()
                <= s || e <= areas[i].start_vpn by {
                let a = areas[i];
                if !(a.end_vpn() <= s || e <= a.start_vpn) {
                    let vpn: int = if a.start_vpn <= s {
                        s as int
                    } else {
                        a.start_vpn as int
                    };
                    lemma_area_index_unique(areas, vpn, i);
                    assert(self@.contains_key(vpn));
                }
            }
            let m1 = areas_view(areas.push(area));
            let m2 = map_range(self@, s as int, e as int, perm);
            assert forall|vpn: int| #[trigger] m1.contains_key(vpn) <==> m2.contains_key(vpn) by {
                lemma_area_index_push(areas, area, vpn);
            }
            assert forall|vpn: int| m1.contains_key(vpn) implies #[trigger] m1[vpn] == m2[vpn] by {
                lemma_area_index_push(areas, area, vpn);
                lemma_area_index_range(areas, vpn);
                if s <= vpn < e {
                    assert(area.frames[vpn - s].bytes@ == zero_bytes());
                } else {
                    let k = area_index(areas, vpn);
                    assert(areas.push(area)[k] == areas[k]);
                }
            }
            assert(m1 =~= m2);
        }
        self.areas.push(area);
        assert(extents(self.areas@) =~= extents(old(self).areas@).push(
            Extent { start: s as int, end: e as int, perm },
        ));
    }

    /// Unmaps the pages of `[s, e)` that are mapped and drops their frames.
    /// A region that reaches beyond the range keeps its pages outside it: it
    /// is trimmed, or split in two. The regions keep their order.
    pub fn remove_range(&mut self, s: usize, e: usize)
        requires
            old(self).wf(),
        ensures
            final(self).wf(),
            final(self)@ == unmap_range(old(self)@, s as int, e as int),
            extents(final(self).areas@) == cut_all(extents(old(self).areas@), s as int, e as int),
    {
        if s >= e {
            assert(self@ =~= unmap_range(self@, s as int, e as int));
            proof {
                lemma_cut_nothing(extents(self.areas@), s as int, e as int);
            }
            return ;
        }
        let ghost orig = self.areas@;
        let ghost mut src: Seq<int> = Seq::empty();
        let mut out: Vec<MapArea> = Vec::new();
        let n: usize = self.areas.len();
        let mut i: usize = 0;
        assert(extents(out@) =~= cut_all(extents(orig).take(0), s as int, e as int));
        while i < n
            invariant
                s < e,
                i <= n,
                n == orig.len(),
                self.areas.len() == n,
                forall|k: int| 0 <= k < n ==> (#[trigger] orig[k]).wf(),
                areas_disjoint(orig),
                forall|k: int| i <= k < n ==> self.areas[k] == orig[k],
                src.len() == out.len(),
                forall|j: int| 0 <= j < out.len() ==> 0 <= #[trigger] src[j] < i,
                forall|j: int| 0 <= j < out.len() ==> piece_of(#[trigger] out[j], orig[src[j]]),
                forall|j: int|
                    0 <= j < out.len() ==> (#[trigger] out[j]).end_vpn() <= s || e
                        <= out[j].start_vpn,
                areas_disjoint(out@),
                forall|vpn: int|
                    0 <= #[trigger] area_index(orig, vpn) < i && !(s <= vpn < e) ==> area_index(
                        out@,
                        vpn,
                    ) >= 0,
                extents(out@) == cut_all(extents(orig).take(i as int), s as int, e as int),
            decreases n - i,
        {
            assert(orig[i as int].wf());
            let start: usize = self.areas[i].start_vpn;
            let perm = self.areas[i].perm;
            let len: usize = self.areas[i].frames.len();
            let end: usize = start + len;
            let mut frames: Vec<Frame> = Vec::new();
            core::mem::swap(&mut self.areas[i].frames, &mut frames);
            assert(frames@ == orig[i as int].frames@);
            let ghost out0 = out@;
            if end <= s || e <= start {
                let whole = MapArea { start_vpn: start, perm, frames };
                proof {
                    lemma_push_piece(orig, out0, src, whole, i as int);
                    src = src.push(i as int);
                }
                out.push(whole);
            } else {
                let right: Vec<Frame> = if e < end {
                    frames.split_off(e - start)
                } else {
                    Vec::new()
                };
                if start < s {
                    frames.truncate(s - start);
                    let left = MapArea { start_vpn: start, perm, frames };
                    proof {
                        lemma_push_piece(orig, out0, src, left, i as int);
                        src = src.push(i as int);
                    }
                    out.push(left);
                }
                let ghost out1 = out@;
                if e < end {
                    let rest = MapArea { start_vpn: e, perm, frames: right };
                    proof {
                        lemma_push_piece(orig, out1, src, rest, i as int);
                        src = src.push(i as int);
                    }
                    out.push(rest);
                }
            }
            proof {
                let out2 = out@;
                assert forall|vpn: int|
                    0 <= #[trigger] area_index(orig, vpn) < i + 1 && !(s <= vpn < e) implies area_index(
                        out2,
                        vpn,
                    ) >= 0 by {
                    lemma_area_index_range(orig, vpn);
                    if area_index(orig, vpn) < i {
                        lemma_area_index_range(out0, vpn);
                        let j = area_index(out0, vpn);
                        assert(out2[j] == out0[j]);
                        lemma_area_index_found(out2, vpn, j);
                    } else {
                        assert(orig[i as int].contains(vpn));
                        if vpn < s {
                            let j = out0.len() as int;
                            assert(out2[j].contains(vpn));
                            lemma_area_index_found(out2, vpn, j);
                        } else {
                            let j = out2.len() - 1;
                            assert(out2[j].contains(vpn));
                            lemma_area_index_found(out2, vpn, j);
                        }
                    }
                }
            }
            proof {
                let xs0 = extents(orig).take(i as int);
                let xs1 = extents(orig).take(i + 1);
                assert(xs1.drop_last() =~= xs0);
                assert(xs1.last() == extent(orig[i as int]));
                assert(extents(out@) =~= extents(out0) + cut(
                    extent(orig[i as int]),
                    s as int,
                    e as int,
                ));
            }
            i = i + 1;
        }
        proof {
            assert(extents(orig).take(n as int) =~= extents(orig));
            let fin = out@;
            assert forall|j: int| 0 <= j < fin.len() implies (#[trigger] fin[j]).wf() by {
                assert(piece_of(fin[j], orig[src[j]]));
                assert(orig[src[j]].wf());
                assert forall|t: int| 0 <= t < fin[j].frames.len() implies (
                #[trigger] fin[j].frames[t]).wf() by {
                    assert(orig[src[j]].frames[fin[j].start_vpn - orig[src[j]].start_vpn + t].wf());
                }
            }
            let m1 = areas_view(fin);
            let m2 = unmap_range(areas_view(orig), s as int, e as int);
            assert forall|vpn: int| #[trigger] m1.contains_key(vpn) <==> m2.contains_key(vpn) by {
                lemma_area_index_range(fin, vpn);
                lemma_area_index_range(orig, vpn);
                let j = area_index(fin, vpn);
                if j >= 0 {
                    assert(piece_of(fin[j], orig[src[j]]));
                    lemma_area_index_unique(orig, vpn, src[j]);
                }
            }
            assert forall|vpn: int| m1.contains_key(vpn) implies #[trigger] m1[vpn] == m2[vpn] by {
                lemma_area_index_range(fin, vpn);
                let j = area_index(fin, vpn);
                assert(piece_of(fin[j], orig[src[j]]));
                lemma_area_index_unique(orig, vpn, src[j]);
                assert(fin[j].frames[vpn - fin[j].start_vpn] == orig[src[j]].frames[fin[j].start_vpn
                    - orig[src[j]].start_vpn + (vpn - fin[j].start_vpn)]);
            }
            assert(m1 =~= m2);
        }
        self.areas = out;
    }

    /// Where address `va` lives: its region, the frame within the region, the offset within the frame.
    pub fn translate(&self, va: usize) -> (r: Option<PhysAddr>)
        requires
            self.wf(),
        ensures
            r is Some <==> self@.contains_key(vpn_floor(va as int)),
            r matches Some(pa) ==> {
                &&& pa.area < self.areas.len()
                &&& pa.frame < self.areas[pa.area as int].frames.len()
                &&& pa.offset < PAGE_SIZE
                &&& pa.area == area_index(self.areas@, vpn_floor(va as int))
                &&& pa.frame == vpn_floor(va as int) - self.areas[pa.area as int].start_vpn
                &&& pa.offset == va % PAGE_SIZE
                &&& self.areas[pa.area as int].frames[pa.frame as int].bytes[pa.offset as int]
                    == byte_at(self@, va as int)
            },
    {
        let vpn: usize = va / PAGE_SIZE;
        match self.find_area(vpn) {
            Some(i) => {
                assert(self.areas[i as int].wf());
                Some(PhysAddr { area: i, frame: vpn - self.areas[i].start_vpn, offset: va % PAGE_SIZE })
            },
            None => None,
        }
    }

    /// Whether the kernel may read (or, with `write`, write) every byte of
    /// `[va, va + len)` for the user: each page is mapped for the user with that access.
    pub fn check_access(&self, va: usize, len: usize, write: bool) -> (r: bool)
        requires
            self.wf(),
        ensures
            r == range_accessible(self@, va as int, len as int, write),
    {
        if len > usize::MAX - va {
            return false;
        }
        let e: usize = page_ceil(va + len);
        let mut vpn: usize = va / PAGE_SIZE;
        while vpn < e
            invariant
                self.wf(),
                va + len <= usize::MAX,
                e == vpn_ceil(va + len),
                vpn_floor(va as int) <= vpn,
                forall|p: int|
                    vpn_floor(va as int) <= p < vpn ==> page_accessible(self@, p, write),
            decreases e - vpn,
        {
            match self.find_area(vpn) {
                Some(i) => {
                    let perm = self.areas[i].perm;
                    if !perm.u || (write && !perm.w) || (!write && !perm.r) {
                        assert(!page_accessible(self@, vpn as int, write));
                        return false;
                    }
                },
                None => {
                    assert(!page_accessible(self@, vpn as int, write));
                    return false;
                },
            }
            vpn = vpn + 1;
        }
        true
    }

    /// Replaces the byte at `va`, whatever the page allows.
    pub fn set_byte(&mut self, va: usize, b: u8)
        requires
            old(self).wf(),
            old(self)@.contains_key(vpn_floor(va as int)),
        ensures
            final(self).wf(),
            same_shape(old(self).areas@, final(self).areas@),
            final(self)@ == old(self)@.insert(
                vpn_floor(va as int),
                PageView {
                    perm: old(self)@[vpn_floor(va as int)].perm,
                    bytes: old(self)@[vpn_floor(va as int)].bytes.update(
                        va as int % (PAGE_SIZE as int),
                        b,
                    ),
                },
            ),
    {
        let vpn: usize = va / PAGE_SIZE;
        let off: usize = va % PAGE_SIZE;
        let i: usize = self.find_area(vpn).unwrap();
        let ghost a0 = self.areas@;
        assert(a0[i as int].wf());
        let j: usize = vpn - self.areas[i].start_vpn;
        assert(a0[i as int].frames[j as int].wf());
        self.areas[i].frames[j].bytes[off] = b;
        proof {
            let a1 = self.areas@;
            assert(a1[i as int].frames[j as int].bytes@ == a0[i as int].frames[j as int].bytes@.update(
                off as int,
                b,
            ));
            assert(same_shape(a0, a1));
            assert forall|k: int| 0 <= k < a1.len() implies (#[trigger] a1[k]).wf() by {
                assert(a0[k].wf());
                if k == i {
                    assert forall|t: int| 0 <= t < a1[k].frames.len() implies (
                    #[trigger] a1[k].frames[t]).wf() by {
                        assert(a0[k].frames[t].wf());
                    }
                }
            }
            assert(areas_disjoint(a1)) by {
                assert forall|x: int, y: int| 0 <= x < y < a1.len() implies (
                #[trigger] a1[x]).end_vpn() <= (#[trigger] a1[y]).start_vpn || a1[y].end_vpn()
                    <= a1[x].start_vpn by {
                    assert(a0[x].end_vpn() <= a0[y].start_vpn || a0[y].end_vpn()
                        <= a0[x].start_vpn);
                }
            }
            let m1 = areas_view(a1);
            let m2 = areas_view(a0).insert(
                vpn as int,
                PageView {
                    perm: areas_view(a0)[vpn as int].perm,
                    bytes: areas_view(a0)[vpn as int].bytes.update(off as int, b),
                },
            );
            assert forall|p: int| #[trigger] m1.contains_key(p) <==> m2.contains_key(p) by {
                lemma_same_shape_index(a0, a1, p);
            }
            assert forall|p: int| m1.contains_key(p) implies #[trigger] m1[p] == m2[p] by {
                lemma_same_shape_index(a0, a1, p);
                lemma_area_index_range(a0, p);
                let k = area_index(a0, p);
                if p == vpn {
                    assert(m1[p].bytes =~= m2[p].bytes);
                } else if k == i {
                    assert(a1[k].frames[p - a1[k].start_vpn] == a0[k].frames[p - a0[k].start_vpn]);
                } else {
                    assert(a1[k] == a0[k]);
                }
            }
            assert(m1 =~= m2);
        }
    }

    /// Copies `data` to `[va, va + data.len())`, whatever the pages allow.
    pub fn store_bytes(&mut self, va: usize, data: &Vec<u8>)
        requires
            old(self).wf(),
            va + data.len() <= usize::MAX,
            range_mapped(old(self)@, vpn_floor(va as int), vpn_ceil(va + data.len())),
        ensures
            final(self).wf(),
            same_shape(old(self).areas@, final(self).areas@),
            final(self)@ == write_bytes_result(old(self)@, va as int, data@),
    {
        let ghost m0 = self@;
        let ghost a0 = self.areas@;
        let mut k: usize = 0;
        assert(self@ =~= write_bytes_result(m0, va as int, data@.take(0))) by {
            lemma_write_nothing(m0, va as int, a0);
            assert(data@.take(0) =~= Seq::<u8>::empty());
        }
        while k < data.len()
            invariant
                k <= data.len(),
                va + data.len() <= usize::MAX,
                self.wf(),
                m0 == areas_view(a0),
                forall|i: int| 0 <= i < a0.len() ==> (#[trigger] a0[i]).wf(),
                same_shape(a0, self.areas@),
                range_mapped(m0, vpn_floor(va as int), vpn_ceil(va + data.len())),
                self@ == write_bytes_result(m0, va as int, data@.take(k as int)),
            decreases data.len() - k,
        {
            let ghost m1 = self@;
            let ghost a1 = self.areas@;
            let a: usize = va + k;
            assert(m0.contains_key(vpn_floor(a as int)));
            self.set_byte(a, data[k]);
            proof {
                let a2 = self.areas@;
                assert(same_shape(a0, a2));
                let m2 = self@;
                let m3 = write_bytes_result(m0, va as int, data@.take(k + 1));
                let d0 = data@.take(k as int);
                let d1 = data@.take(k + 1);
                assert forall|p: int| m2.contains_key(p) implies #[trigger] m2[p] == m3[p] by {
                    lemma_page_len(a0, p);
                    assert(m2[p].bytes.len() == m3[p].bytes.len());
                    assert forall|o: int| 0 <= o < m2[p].bytes.len() implies m2[p].bytes[o]
                        == m3[p].bytes[o] by {
                        let x = p * PAGE_SIZE + o;
                        if va <= x < va + k {
                            assert(d0[x - va] == d1[x - va]);
                        }
                    }
                    assert(m2[p].bytes =~= m3[p].bytes);
                }
                assert(m2 =~= m3);
            }
            k = k + 1;
        }
        assert(data@.take(data.len() as int) =~= data@);
    }

    /// Copies `data` into user memory at `va`, if the user may write every byte
    /// of the range; else changes nothing.
    pub fn write_bytes(&mut self, va: usize, data: &Vec<u8>) -> (r: bool)
        requires
            old(self).wf(),
        ensures
            final(self).wf(),
            r == range_accessible(old(self)@, va as int, data.len() as int, true),
            r ==> final(self)@ == write_bytes_result(old(self)@, va as int, data@),
            r ==> same_shape(old(self).areas@, final(self).areas@),
            !r ==> *final(self) == *old(self),
    {
        if !self.check_access(va, data.len(), true) {
            return false;
        }
        assert(range_mapped(self@, vpn_floor(va as int), vpn_ceil(va + data.len()))) by {
            assert forall|p: int|
                vpn_floor(va as int) <= p < vpn_ceil(va + data.len()) implies #[trigger] self@.contains_key(
                p,
            ) by {
                assert(page_accessible(self@, p, true));
            }
        }
        self.store_bytes(va, data);
        true
    }

    /// The bytes of user memory at `[va, va + len)`, if the user may read every byte of the range.
    pub fn read_bytes(&self, va: usize, len: usize) -> (r: Option<Vec<u8>>)
        requires
            self.wf(),
        ensures
            r is Some <==> range_accessible(self@, va as int, len as int, false),
            r matches Some(v) ==> v@ == read_bytes_result(self@, va as int, len as int),
    {
        if !self.check_access(va, len, false) {
            return None;
        }
        let mut out: Vec<u8> = Vec::new();
        let mut k: usize = 0;
        while k < len
            invariant
                k <= len,
                va + len <= usize::MAX,
                self.wf(),
                range_accessible(self@, va as int, len as int, false),
                out@ == read_bytes_result(self@, va as int, k as int),
            decreases len - k,
        {
            let a: usize = va + k;
            assert(page_accessible(self@, vpn_floor(a as int), false));
            let pa = self.translate(a).unwrap();
            assert(self.areas[pa.area as int].wf());
            assert(self.areas[pa.area as int].frames[pa.frame as int].wf());
            out.push(self.areas[pa.area].frames[pa.frame].bytes[pa.offset]);
            k = k + 1;
            assert(out@ =~= read_bytes_result(self@, va as int, k as int));
        }
        Some(out)
    }

    /// The bytes of the string at `va` up to its terminating zero byte, if the
    /// user may read all of them and the zero byte.
    pub fn read_cstr(&self, va: usize) -> (r: Option<Vec<u8>>)
        requires
            self.wf(),
        ensures
            match r {
                Some(v) => cstr_at(self@, va as int, v@.len() as int) && v@ == read_bytes_result(
                    self@,
                    va as int,
                    v@.len() as int,
                ),
                None => forall|n: int| 0 <= n ==> !cstr_at(self@, va as int, n),
            },
            r is Some <==> user_str(self@, va as int) is Some,
            r matches Some(v) ==> v@ == user_str(self@, va as int)->0,
    {
        let mut out: Vec<u8> = Vec::new();
        let mut a: usize = va;
        loop
            invariant
                self.wf(),
                a == va + out.len(),
                out@ == read_bytes_result(self@, va as int, out.len() as int),
                forall|k: int|
                    0 <= k < out.len() ==> #[trigger] byte_readable(self@, va + k) && byte_at(
                        self@,
                        va + k,
                    ) != 0,
            decreases usize::MAX - a,
        {
            let pa = self.translate(a);
            let ok = match pa {
                Some(pa) => {
                    let perm = self.areas[pa.area].perm;
                    perm.u && perm.r
                },
                None => false,
            };
            if !ok {
                proof {
                    assert(!byte_readable(self@, a as int));
                    assert forall|n: int| 0 <= n implies !cstr_at(self@, va as int, n) by {
                        if n < out.len() {
                            assert(byte_readable(self@, va + n) && byte_at(self@, va + n) != 0);
                        } else if n > out.len() {
                            if cstr_at(self@, va as int, n) {
                                assert(byte_readable(self@, va + out.len()));
                            }
                        }
                    }
                }
                return None;
            }
            let pa = pa.unwrap();
            assert(self.areas[pa.area as int].wf());
            assert(self.areas[pa.area as int].frames[pa.frame as int].wf());
            let b: u8 = self.areas[pa.area].frames[pa.frame].bytes[pa.offset];
            if b == 0 {
                proof {
                    assert(cstr_at(self@, va as int, out.len() as int));
                    lemma_cstr_unique(
                        self@,
                        va as int,
                        out.len() as int,
                        cstr_len(self@, va as int),
                    );
                }
                return Some(out);
            }
            if a == usize::MAX {
                proof {
                    assert forall|n: int| 0 <= n implies !cstr_at(self@, va as int, n) by {
                        if n <= out.len() {
                            assert(byte_readable(self@, va + n) && byte_at(self@, va + n) != 0);
                        }
                    }
                }
                return None;
            }
            out.push(b);
            a = a + 1;
            assert(out@ =~= read_bytes_result(self@, va as int, out.len() as int));
        }
    }

    /// A copy of the address space: the same regions, each page in a frame of its own.
    pub fn duplicate(&self) -> (r: MemorySet)
        requires
            self.wf(),
        ensures
            r.wf(),
            r@ == self@,
            same_shape(self.areas@, r.areas@),
    {
        let mut areas: Vec<MapArea> = Vec::new();
        let mut i: usize = 0;
        while i < self.areas.len()
            invariant
                self.wf(),
                i <= self.areas.len(),
                areas.len() == i,
                forall|k: int| 0 <= k < i ==> same_pages(self.areas[k], #[trigger] areas[k]),
            decreases self.areas.len() - i,
        {
            let src = &self.areas[i];
            assert(src.wf());
            let mut frames: Vec<Frame> = Vec::new();
            let mut j: usize = 0;
            while j < src.frames.len()
                invariant
                    src.wf(),
                    j <= src.frames.len(),
                    frames.len() == j,
                    forall|t: int|
                        0 <= t < j ==> (#[trigger] frames[t]).bytes@ == src.frames[t].bytes@,
                decreases src.frames.len() - j,
            {
                assert(src.frames[j as int].wf());
                frames.push(src.frames[j].duplicate());
                j = j + 1;
            }
            areas.push(MapArea { start_vpn: src.start_vpn, perm: src.perm, frames });
            i = i + 1;
        }
        let r = MemorySet { areas };
        proof {
            lemma_same_pages_view(self.areas@, r.areas@);
            assert forall|k: int| 0 <= k < r.areas.len() implies (#[trigger] r.areas[k]).wf() by {
                assert(same_pages(self.areas[k], r.areas[k]));
                assert(self.areas[k].wf());
                assert forall|t: int| 0 <= t < r.areas[k].frames.len() implies (
                #[trigger] r.areas[k].frames[t]).wf() by {
                    assert(self.areas[k].frames[t].wf());
                }
            }
            assert forall|x: int, y: int| 0 <= x < y < r.areas.len() implies (
            #[trigger] r.areas[x]).end_vpn() <= (#[trigger] r.areas[y]).start_vpn
                || r.areas[y].end_vpn() <= r.areas[x].start_vpn by {
                assert(same_pages(self.areas[x], r.areas[x]));
                assert(same_pages(self.areas[y], r.areas[y]));
                assert(self.areas[x].end_vpn() <= self.areas[y].start_vpn
                    || self.areas[y].end_vpn() <= self.areas[x].start_vpn);
            }
        }
        r
    }

    /// Maps `[start, start + len)`, rounded out to whole pages, with the
    /// access that the low three bits of `port` name (1 read, 2 write, 4
    /// execute) and user access. All or nothing: if a page of the range is
    /// mapped already, nothing changes.
    pub fn mmap(&mut self, start: usize, len: usize, port: usize) -> (r: Result<(), KernelError>)
        requires
            old(self).wf(),
        ensures
            final(self).wf(),
            r == mmap_outcome(old(self)@, start as int, len as int, port as int),
            r is Ok ==> final(self)@ == map_range(
                old(self)@,
                vpn_floor(start as int),
                vpn_ceil(start + len),
                port_permission(port as int),
            ),
            r is Ok && len > 0 ==> extents(final(self).areas@) == extents(old(self).areas@).push(
                Extent {
                    start: vpn_floor(start as int),
                    end: vpn_ceil(start + len),
                    perm: port_permission(port as int),
                },
            ),
            r is Ok && len == 0 ==> *final(self) == *old(self),
            r is Err ==> *final(self) == *old(self),
    {
        if start % PAGE_SIZE != 0 || port < 1 || port > 7 || len > usize::MAX - start {
            return Err(KernelError::InvalidArgument);
        }
        let s: usize = start / PAGE_SIZE;
        let e: usize = page_ceil(start + len);
        if !self.range_free(s, e) {
            return Err(KernelError::Overlap);
        }
        let perm = MapPermission {
            r: port % 2 == 1,
            w: (port / 2) % 2 == 1,
            x: port / 4 == 1,
            u: true,
        };
        if s < e {
            self.insert_framed_area(s, e, perm);
        } else {
            assert(self@ =~= map_range(self@, s as int, e as int, perm));
        }
        Ok(())
    }

    /// Unmaps `[start, start + len)`, rounded out to whole pages. All or
    /// nothing: if a page of the range is not mapped, nothing changes.
    pub fn munmap(&mut self, start: usize, len: usize) -> (r: Result<(), KernelError>)
        requires
            old(self).wf(),
        ensures
            final(self).wf(),
            r == munmap_outcome(old(self)@, start as int, len as int),
            r is Ok ==> final(self)@ == unmap_range(
                old(self)@,
                vpn_floor(start as int),
                vpn_ceil(start + len),
            ),
            r is Ok ==> extents(final(self).areas@) == cut_all(
                extents(old(self).areas@),
                vpn_floor(start as int),
                vpn_ceil(start + len),
            ),
            r is Err ==> *final(self) == *old(self),
    {
        if start % PAGE_SIZE != 0 || len > usize::MAX - start {
            return Err(KernelError::InvalidArgument);
        }
        let s: usize = start / PAGE_SIZE;
        let e: usize = page_ceil(start + len);
        if !self.range_all_mapped(s, e) {
            return Err(KernelError::NotMapped);
        }
        self.remove_range(s, e);
        Ok(())
    }
}

/// Where a byte of an address space is kept.
#[derive(Clone, Copy, Debug, PartialEq, Eq, Structural)]
pub struct PhysAddr {
    /// The region, by its place in the list of regions.
    pub area: usize,
    /// The frame, by its place in the region.
    pub frame: usize,
    /// The byte, by its place in the frame.
    pub offset: usize,
}

/// The byte at address `va`, where its page is mapped.
pub open spec fn byte_at(m: PageMap, va: int) -> u8 {
    m[vpn_floor(va)].bytes[va % (PAGE_SIZE as int)]
}

/// Page `vpn` is mapped for the user, for reading or, with `write`, for writing.
pub open spec fn page_accessible(m: PageMap, vpn: int, write: bool) -> bool {
    &&& m.contains_key(vpn)
    &&& m[vpn].perm.u
    &&& if write {
        m[vpn].perm.w
    } else {
        m[vpn].perm.r
    }
}

/// Every byte of `[va, va + len)` lies in the address space, on a page that
/// is mapped for the user with the access asked for.
pub open spec fn range_accessible(m: PageMap, va: int, len: int, write: bool) -> bool {
    &&& va + len <= usize::MAX
    &&& forall|vpn: int|
        vpn_floor(va) <= vpn < vpn_ceil(va + len) ==> #[trigger] page_accessible(m, vpn, write)
}

/// The user may read the byte at `va`.
pub open spec fn byte_readable(m: PageMap, va: int) -> bool {
    va <= usize::MAX && page_accessible(m, vpn_floor(va), false)
}

/// A string of `n` bytes starts at `va`: `n` readable bytes that are not
/// zero, then a readable zero byte.
pub open spec fn cstr_at(m: PageMap, va: int, n: int) -> bool {
    &&& forall|k: int| 0 <= k < n ==> #[trigger] byte_readable(m, va + k) && byte_at(m, va + k) != 0
    &&& byte_readable(m, va + n)
    &&& byte_at(m, va + n) == 0
}

/// A string starts at `va`.
pub open spec fn has_cstr(m: PageMap, va: int) -> bool {
    exists|n: int| 0 <= n && #[trigger] cstr_at(m, va, n)
}

/// The length of the string that starts at `va`.
pub open spec fn cstr_len(m: PageMap, va: int) -> int {
    choose|n: int| 0 <= n && #[trigger] cstr_at(m, va, n)
}

/// The string that starts at `va`, without its terminating zero byte, if
/// the user may read it all.
pub open spec fn user_str(m: PageMap, va: int) -> Option<Seq<u8>> {
    if has_cstr(m, va) {
        Some(read_bytes_result(m, va, cstr_len(m, va)))
    } else {
        None
    }
}

/// A string has one length: that up to its first zero byte.
pub proof fn lemma_cstr_unique(m: PageMap, va: int, n1: int, n2: int)
    requires
        0 <= n1,
        0 <= n2,
        cstr_at(m, va, n1),
        cstr_at(m, va, n2),
    ensures
        n1 == n2,
{
    if n1 < n2 {
        assert(byte_readable(m, va + n1) && byte_at(m, va + n1) != 0);
    } else if n2 < n1 {
        assert(byte_readable(m, va + n2) && byte_at(m, va + n2) != 0);
    }
}

/// The `len` bytes from address `va` on.
pub open spec fn read_bytes_result(m: PageMap, va: int, len: int) -> Seq<u8> {
    Seq::new(len as nat, |k: int| byte_at(m, va + k))
}

/// `m` with the bytes of `data` at `[va, va + data.len())`; mappings and permissions as before.
pub open spec fn write_bytes_result(m: PageMap, va: int, data: Seq<u8>) -> PageMap {
    Map::new(
        |vpn: int| m.contains_key(vpn),
        |vpn: int|
            PageView {
                perm: m[vpn].perm,
                bytes: Seq::new(
                    m[vpn].bytes.len(),
                    |o: int|
                        if va <= vpn * PAGE_SIZE + o < va + data.len() {
                            data[vpn * PAGE_SIZE + o - va]
                        } else {
                            m[vpn].bytes[o]
                        },
                ),
            },
    )
}

/// Two lists of regions cover the same pages with the same permissions.
pub open spec fn same_shape(a: Seq<MapArea>, b: Seq<MapArea>) -> bool {
    &&& a.len() == b.len()
    &&& forall|i: int|
        0 <= i < a.len() ==> (#[trigger] a[i]).start_vpn == b[i].start_vpn && a[i].frames.len()
            == b[i].frames.len() && a[i].perm == b[i].perm
}

/// Two regions cover the same pages with the same permissions and bytes.
pub open spec fn same_pages(a: MapArea, b: MapArea) -> bool {
    &&& a.start_vpn == b.start_vpn
    &&& a.perm == b.perm
    &&& a.frames.len() == b.frames.len()
    &&& forall|t: int| 0 <= t < a.frames.len() ==> (#[trigger] a.frames[t]).bytes@ == b.frames[t].bytes@
}

/// Lists of regions that cover the same pages find the same region for a page.
pub proof fn lemma_same_shape_index(a: Seq<MapArea>, b: Seq<MapArea>, vpn: int)
    requires
        same_shape(a, b),
    ensures
        area_index(a, vpn) == area_index(b, vpn),
    decreases a.len(),
{
    if a.len() > 0 {
        assert(a.last().start_vpn == b.last().start_vpn && a.last().frames.len()
            == b.last().frames.len()) by {
            assert(a[a.len() - 1].start_vpn == b[a.len() - 1].start_vpn);
        }
        assert(same_shape(a.drop_last(), b.drop_last())) by {
            assert forall|i: int| 0 <= i < a.drop_last().len() implies (
            #[trigger] a.drop_last()[i]).start_vpn == b.drop_last()[i].start_vpn
                && a.drop_last()[i].frames.len() == b.drop_last()[i].frames.len()
                && a.drop_last()[i].perm == b.drop_last()[i].perm by {
                assert(a[i].start_vpn == b[i].start_vpn);
            }
        }
        lemma_same_shape_index(a.drop_last(), b.drop_last(), vpn);
    }
}

/// Lists of regions with the same pages and bytes stand for the same page map.
pub proof fn lemma_same_pages_view(a: Seq<MapArea>, b: Seq<MapArea>)
    requires
        a.len() == b.len(),
        forall|i: int| 0 <= i < a.len() ==> same_pages(a[i], #[trigger] b[i]),
    ensures
        same_shape(a, b),
        areas_view(a) == areas_view(b),
{
    assert(same_shape(a, b)) by {
        assert forall|i: int| 0 <= i < a.len() implies (#[trigger] a[i]).start_vpn
            == b[i].start_vpn && a[i].frames.len() == b[i].frames.len() && a[i].perm
            == b[i].perm by {
            assert(same_pages(a[i], b[i]));
        }
    }
    let m1 = areas_view(a);
    let m2 = areas_view(b);
    assert forall|p: int| #[trigger] m1.contains_key(p) <==> m2.contains_key(p) by {
        lemma_same_shape_index(a, b, p);
    }
    assert forall|p: int| m1.contains_key(p) implies #[trigger] m1[p] == m2[p] by {
        lemma_same_shape_index(a, b, p);
        lemma_area_index_range(a, p);
        let k = area_index(a, p);
        assert(same_pages(a[k], b[k]));
        assert(a[k].frames[p - a[k].start_vpn].bytes@ == b[k].frames[p - a[k].start_vpn].bytes@);
    }
    assert(m1 =~= m2);
}

/// Every mapped page holds a whole page of bytes.
pub proof fn lemma_page_len(a: Seq<MapArea>, vpn: int)
    requires
        forall|i: int| 0 <= i < a.len() ==> (#[trigger] a[i]).wf(),
        areas_view(a).contains_key(vpn),
    ensures
        areas_view(a)[vpn].bytes.len() == PAGE_SIZE,
{
    lemma_area_index_range(a, vpn);
    let k = area_index(a, vpn);
    assert(a[k].wf());
    assert(a[k].frames[vpn - a[k].start_vpn].wf());
}

/// Writing no bytes changes nothing.
proof fn lemma_write_nothing(m: PageMap, va: int, a: Seq<MapArea>)
    requires
        m == areas_view(a),
    ensures
        write_bytes_result(m, va, Seq::<u8>::empty()) == m,
{
    let m2 = write_bytes_result(m, va, Seq::<u8>::empty());
    assert forall|p: int| m.contains_key(p) implies #[trigger] m2[p] == m[p] by {
        assert(m2[p].bytes =~= m[p].bytes);
    }
    assert(m2 =~= m);
}

/// `p` is a run of pages of `a`, with the frames that `a` had for them.
pub open spec fn piece_of(p: MapArea, a: MapArea) -> bool {
    &&& p.frames.len() > 0
    &&& a.start_vpn <= p.start_vpn
    &&& p.end_vpn() <= a.end_vpn()
    &&& p.perm == a.perm
    &&& forall|t: int|
        0 <= t < p.frames.len() ==> #[trigger] p.frames[t] == a.frames[p.start_vpn - a.start_vpn
            + t]
}

/// A page that some region holds is found.
pub proof fn lemma_area_index_found(areas: Seq<MapArea>, vpn: int, i: int)
    requires
        0 <= i < areas.len(),
        areas[i].contains(vpn),
    ensures
        area_index(areas, vpn) >= 0,
{
    lemma_area_index_range(areas, vpn);
}

/// Adding a piece of region `i` to pieces of regions up to `i` keeps them apart.
proof fn lemma_push_piece(orig: Seq<MapArea>, out: Seq<MapArea>, src: Seq<int>, p: MapArea, i: int)
    requires
        0 <= i < orig.len(),
        areas_disjoint(orig),
        areas_disjoint(out),
        src.len() == out.len(),
        forall|j: int| 0 <= j < out.len() ==> 0 <= #[trigger] src[j] <= i,
        forall|j: int| 0 <= j < out.len() ==> piece_of(#[trigger] out[j], orig[src[j]]),
        forall|j: int|
            0 <= j < out.len() && src[j] == i ==> (#[trigger] out[j]).end_vpn() <= p.start_vpn,
        piece_of(p, orig[i]),
    ensures
        areas_disjoint(out.push(p)),
        forall|j: int|
            0 <= j < out.len() + 1 ==> piece_of(
                #[trigger] out.push(p)[j],
                orig[src.push(i)[j]],
            ),
{
    let out2 = out.push(p);
    assert forall|a: int, b: int| 0 <= a < b < out2.len() implies (#[trigger] out2[a]).end_vpn()
        <= (#[trigger] out2[b]).start_vpn || out2[b].end_vpn() <= out2[a].start_vpn by {
        if b == out.len() {
            assert(piece_of(out[a], orig[src[a]]));
            if src[a] < i {
                assert(orig[src[a]].end_vpn() <= orig[i].start_vpn || orig[i].end_vpn()
                    <= orig[src[a]].start_vpn);
            }
        } else {
            assert(out2[a] == out[a] && out2[b] == out[b]);
        }
    }
    assert forall|j: int| 0 <= j < out.len() + 1 implies piece_of(
        #[trigger] out2[j],
        orig[src.push(i)[j]],
    ) by {
        if j < out.len() {
            assert(out2[j] == out[j]);
            assert(src.push(i)[j] == src[j]);
        }
    }
}

/// The access that the low three bits of `port` name, always with user access.
pub open spec fn port_permission(port: int) -> MapPermission {
    MapPermission { r: port % 2 == 1, w: (port / 2) % 2 == 1, x: port / 4 == 1, u: true }
}

/// Whether `port` names at least one of read, write, execute and nothing else.
pub open spec fn port_valid(port: int) -> bool {
    1 <= port <= 7
}

/// What `mmap` answers on address space `m`.
pub open spec fn mmap_outcome(m: PageMap, start: int, len: int, port: int) -> Result<
    (),
    KernelError,
> {
    if start % (PAGE_SIZE as int) != 0 || !port_valid(port) || start + len > usize::MAX {
        Err(KernelError::InvalidArgument)
    } else if !range_unmapped(m, vpn_floor(start), vpn_ceil(start + len)) {
        Err(KernelError::Overlap)
    } else {
        Ok(())
    }
}

/// What `munmap` answers on address space `m`.
pub open spec fn munmap_outcome(m: PageMap, start: int, len: int) -> Result<(), KernelError> {
    if start % (PAGE_SIZE as int) != 0 || start + len > usize::MAX {
        Err(KernelError::InvalidArgument)
    } else if !range_mapped(m, vpn_floor(start), vpn_ceil(start + len)) {
        Err(KernelError::NotMapped)
    } else {
        Ok(())
    }
}

/// Once a range is mapped, mapping any range that shares a page with it is
/// refused as an overlap, however valid its arguments are.
pub proof fn lemma_mmap_overlap_refused(
    m: PageMap,
    start1: int,
    len1: int,
    port1: int,
    start2: int,
    len2: int,
    port2: int,
    vpn: int,
)
    requires
        mmap_outcome(m, start1, len1, port1) is Ok,
        start2 % (PAGE_SIZE as int) == 0,
        port_valid(port2),
        start2 + len2 <= usize::MAX,
        vpn_floor(start1) <= vpn < vpn_ceil(start1 + len1),
        vpn_floor(start2) <= vpn < vpn_ceil(start2 + len2),
    ensures
        mmap_outcome(
            map_range(m, vpn_floor(start1), vpn_ceil(start1 + len1), port_permission(port1)),
            start2,
            len2,
            port2,
        ) == Err::<(), KernelError>(KernelError::Overlap),
{
    let m1 = map_range(m, vpn_floor(start1), vpn_ceil(start1 + len1), port_permission(port1));
    assert(m1.contains_key(vpn));
}

/// Once a range is mapped, mapping a range with valid arguments that shares
/// no page with it, and none with what was mapped before, succeeds.
pub proof fn lemma_mmap_apart_succeeds(
    m: PageMap,
    start1: int,
    len1: int,
    port1: int,
    start2: int,
    len2: int,
    port2: int,
)
    requires
        mmap_outcome(m, start1, len1, port1) is Ok,
        start2 % (PAGE_SIZE as int) == 0,
        port_valid(port2),
        start2 + len2 <= usize::MAX,
        range_unmapped(m, vpn_floor(start2), vpn_ceil(start2 + len2)),
        vpn_ceil(start1 + len1) <= vpn_floor(start2) || vpn_ceil(start2 + len2) <= vpn_floor(
            start1,
        ),
    ensures
        mmap_outcome(
            map_range(m, vpn_floor(start1), vpn_ceil(start1 + len1), port_permission(port1)),
            start2,
            len2,
            port2,
        ) is Ok,
{
    let m1 = map_range(m, vpn_floor(start1), vpn_ceil(start1 + len1), port_permission(port1));
    assert forall|vpn: int| vpn_floor(start2) <= vpn < vpn_ceil(start2 + len2) implies !#[trigger] m1.contains_key(
        vpn,
    ) by {
        assert(!m.contains_key(vpn));
    }
}

/// Unmapping exactly what was just mapped succeeds once, gives back the
/// address space as it was before the mapping, and fails when repeated. The
/// range is not empty: of an empty range every unmapping succeeds.
pub proof fn lemma_munmap_once(m: PageMap, start: int, len: int, port: int)
    requires
        mmap_outcome(m, start, len, port) is Ok,
        0 <= start,
        0 < len,
    ensures
        munmap_outcome(
            map_range(m, vpn_floor(start), vpn_ceil(start + len), port_permission(port)),
            start,
            len,
        ) is Ok,
        unmap_range(
            map_range(m, vpn_floor(start), vpn_ceil(start + len), port_permission(port)),
            vpn_floor(start),
            vpn_ceil(start + len),
        ) == m,
        munmap_outcome(
            unmap_range(
                map_range(m, vpn_floor(start), vpn_ceil(start + len), port_permission(port)),
                vpn_floor(start),
                vpn_ceil(start + len),
            ),
            start,
            len,
        ) == Err::<(), KernelError>(KernelError::NotMapped),
{
    let s = vpn_floor(start);
    let e = vpn_ceil(start + len);
    let m1 = map_range(m, s, e, port_permission(port));
    assert forall|vpn: int| s <= vpn < e implies #[trigger] m1.contains_key(vpn) by {}
    assert(unmap_range(m1, s, e) =~= m) by {
        assert forall|vpn: int| unmap_range(m1, s, e).contains_key(vpn) == m.contains_key(vpn) by {
            if s <= vpn < e {
                assert(!m.contains_key(vpn));
            }
        }
    }
    assert(s < e);
    assert(!m.contains_key(s));
}

/// The number of the first page that starts at or after `va`.
pub fn page_ceil(va: usize) -> (r: usize)
    ensures
        r == vpn_ceil(va as int),
        r <= vpn_limit(),
{
    if va % PAGE_SIZE == 0 {
        va / PAGE_SIZE
    } else {
        va / PAGE_SIZE + 1
    }
}

} // verus!
