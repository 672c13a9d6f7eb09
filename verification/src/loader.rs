//! Program images and the address space that a program starts in.

use vstd::prelude::*;
use crate::config::{PAGE_SIZE, USER_STACK_SIZE};
use crate::mm::{
    Extent, extents, lemma_same_shape_extents, map_range, MapPermission, MemorySet, page_ceil,
    PageMap, range_mapped, range_unmapped, vpn_ceil, vpn_floor, vpn_limit, write_bytes_result,
};

verus! {

/// One loadable piece of a program: where it goes, how much room it takes,
/// what it allows, and the bytes that the room starts with.
pub struct Segment {
    pub start_va: usize,
    pub mem_size: usize,
    pub perm: MapPermission,
    pub data: Vec<u8>,
}

/// A program as the loader hands it over: its entry point and its segments.
pub struct ProgramImage {
    pub entry: usize,
    pub segments: Vec<Segment>,
}

/// What `from_image` makes of an image.
pub struct LoadedImage {
    pub memory_set: MemorySet,
    /// The initial stack pointer: the top of the user stack.
    pub user_sp: usize,
    pub entry: usize,
}

/// Pages of the user stack.
pub open spec fn stack_pages() -> int {
    USER_STACK_SIZE as int / PAGE_SIZE as int
}

impl Segment {
    /// The first page of the segment.
    pub open spec fn first_vpn(&self) -> int {
        vpn_floor(self.start_va as int)
    }

    /// One past the last page of the segment.
    pub open spec fn end_vpn(&self) -> int {
        vpn_ceil(self.start_va + self.mem_size)
    }

    /// The segment is not empty, lies in the address space and its bytes fit its room.
    pub open spec fn fits(&self) -> bool {
        &&& self.mem_size > 0
        &&& self.start_va + self.mem_size <= usize::MAX
        &&& self.data.len() <= self.mem_size
    }

    /// The permissions of the segment's pages: those it names, and user access.
    pub open spec fn page_perm(&self) -> MapPermission {
        MapPermission { r: self.perm.r, w: self.perm.w, x: self.perm.x, u: true }
    }
}

/// The address space after the segments of `segs` were loaded, each in turn.
pub open spec fn loaded(segs: Seq<Segment>) -> PageMap
    decreases segs.len(),
{
    if segs.len() == 0 {
        Map::empty()
    } else {
        write_bytes_result(
            map_range(
                loaded(segs.drop_last()),
                segs.last().first_vpn(),
                segs.last().end_vpn(),
                segs.last().page_perm(),
            ),
            segs.last().start_va as int,
            segs.last().data@,
        )
    }
}

/// Each segment fits and shares no page with those before it.
pub open spec fn loadable(segs: Seq<Segment>) -> bool
    decreases segs.len(),
{
    segs.len() == 0 || (loadable(segs.drop_last()) && segs.last().fits() && range_unmapped(
        loaded(segs.drop_last()),
        segs.last().first_vpn(),
        segs.last().end_vpn(),
    ))
}

/// One past the highest page of any segment.
pub open spec fn image_top(segs: Seq<Segment>) -> int
    decreases segs.len(),
{
    if segs.len() == 0 {
        0
    } else if image_top(segs.drop_last()) >= segs.last().end_vpn() {
        image_top(segs.drop_last())
    } else {
        segs.last().end_vpn()
    }
}

/// The pages and permissions of the segments of `segs`, in their order.
pub open spec fn segment_extents(segs: Seq<Segment>) -> Seq<Extent> {
    Seq::new(
        segs.len(),
        |i: int| Extent { start: segs[i].first_vpn(), end: segs[i].end_vpn(), perm: segs[i].page_perm() },
    )
}

/// The first page of the user stack: one unmapped guard page above the segments.
pub open spec fn stack_bottom_vpn(segs: Seq<Segment>) -> int {
    image_top(segs) + 1
}

impl ProgramImage {
    /// The segments can be loaded and the user stack fits above them.
    pub open spec fn valid(&self) -> bool {
        &&& loadable(self.segments@)
        &&& stack_bottom_vpn(self.segments@) + stack_pages() < vpn_limit()
    }

    /// The address space of the program before its first instruction: the
    /// segments, and a zeroed user stack that the user may read and write.
    pub open spec fn memory(&self) -> PageMap {
        map_range(
            loaded(self.segments@),
            stack_bottom_vpn(self.segments@),
            stack_bottom_vpn(self.segments@) + stack_pages(),
            MapPermission { r: true, w: true, x: false, u: true },
        )
    }

    /// The regions of that address space: one for each segment, in their
    /// order, and last the user stack.
    pub open spec fn regions(&self) -> Seq<Extent> {
        segment_extents(self.segments@).push(
            Extent {
                start: stack_bottom_vpn(self.segments@),
                end: stack_bottom_vpn(self.segments@) + stack_pages(),
                perm: MapPermission { r: true, w: true, x: false, u: true },
            },
        )
    }

    /// The initial stack pointer of the program.
    pub open spec fn stack_top(&self) -> int {
        (stack_bottom_vpn(self.segments@) + stack_pages()) * PAGE_SIZE
    }
}

/// Segments that can be loaded can be loaded up to any point.
pub proof fn lemma_loadable_prefix(segs: Seq<Segment>, k: int)
    requires
        loadable(segs),
        0 <= k <= segs.len(),
    ensures
        loadable(segs.take(k)),
    decreases segs.len() - k,
{
    if k < segs.len() {
        lemma_loadable_prefix(segs, k + 1);
        assert(segs.take(k + 1).drop_last() =~= segs.take(k));
    } else {
        assert(segs.take(k) =~= segs);
    }
}

/// Builds the address space that the program of `image` starts in.
pub fn from_image(image: &ProgramImage) -> (r: Option<LoadedImage>)
    ensures
        r is Some <==> image.valid(),
        r matches Some(l) ==> {
            &&& l.memory_set.wf()
            &&& l.memory_set@ == image.memory()
            &&& extents(l.memory_set.areas@) == image.regions()
            &&& l.user_sp == image.stack_top()
            &&& l.entry == image.entry
        },
{
    let mut ms = MemorySet::new_bare();
    let mut top: usize = 0;
    let mut i: usize = 0;
    let ghost segs = image.segments@;
    assert(segs.take(0) =~= Seq::<Segment>::empty());
    assert(extents(ms.areas@) =~= segment_extents(segs.take(0)));
    while i < image.segments.len()
        invariant
            i <= image.segments.len(),
            segs == image.segments@,
            ms.wf(),
            extents(ms.areas@) == segment_extents(segs.take(i as int)),
            ms@ == loaded(segs.take(i as int)),
            loadable(segs.take(i as int)),
            top == image_top(segs.take(i as int)),
            top <= vpn_limit(),
            forall|vpn: int| #[trigger] ms@.contains_key(vpn) ==> vpn < top,
        decreases image.segments.len() - i,
    {
        let seg = &image.segments[i];
        let ghost pre = segs.take(i as int);
        let ghost cur = segs.take(i + 1);
        assert(cur.drop_last() =~= pre);
        assert(cur.last() == segs[i as int]);
        if seg.mem_size == 0 || seg.mem_size > usize::MAX - seg.start_va || seg.data.len()
            > seg.mem_size {
            proof {
                if loadable(segs) {
                    lemma_loadable_prefix(segs, i + 1);
                }
            }
            return None;
        }
        let s: usize = seg.start_va / PAGE_SIZE;
        let e: usize = page_ceil(seg.start_va + seg.mem_size);
        if !ms.range_free(s, e) {
            proof {
                if loadable(segs) {
                    lemma_loadable_prefix(segs, i + 1);
                }
            }
            return None;
        }
        let perm = MapPermission { r: seg.perm.r, w: seg.perm.w, x: seg.perm.x, u: true };
        ms.insert_framed_area(s, e, perm);
        assert(range_mapped(
            ms@,
            vpn_floor(seg.start_va as int),
            vpn_ceil(seg.start_va + seg.data.len()),
        ));
        let ghost shaped = ms.areas@;
        ms.store_bytes(seg.start_va, &seg.data);
        proof {
            lemma_same_shape_extents(shaped, ms.areas@);
            assert(extents(ms.areas@) =~= segment_extents(cur));
        }
        if e > top {
            top = e;
        }
        i = i + 1;
    }
    assert(segs.take(i as int) =~= segs);
    let pages: usize = USER_STACK_SIZE / PAGE_SIZE;
    if top >= usize::MAX / PAGE_SIZE - pages {
        return None;
    }
    let bottom: usize = top + 1;
    ms.insert_framed_area(
        bottom,
        bottom + pages,
        MapPermission { r: true, w: true, x: false, u: true },
    );
    Some(LoadedImage { memory_set: ms, user_sp: (bottom + pages) * PAGE_SIZE, entry: image.entry })
}

} // verus!
