//! Address spaces as ordered collections of non-overlapping memory areas.

use crate::config::{
    is_page_aligned, page_aligned, page_ceil, IMAGE_BASE, PAGE_SIZE, USER_STACK_SIZE,
};
use crate::wire::push_zeros;
use vstd::prelude::*;

verus! {

/// Access rights of a memory area.
#[derive(Clone, Copy, Debug, PartialEq, Eq, Structural)]
pub struct MapPermission {
    /// The area may be read.
    pub r: bool,
    /// The area may be written.
    pub w: bool,
    /// Instructions may be fetched from the area.
    pub x: bool,
    /// The area is accessible from user mode.
    pub u: bool,
}

/// One contiguous range `[start, end)` of virtual addresses with uniform
/// permissions, together with the bytes that back it.
pub struct MapArea {
    pub start: usize,
    pub end: usize,
    pub perm: MapPermission,
    pub data: Vec<u8>,
}

/// Mathematical model of a [`MapArea`].
pub struct AreaView {
    pub start: int,
    pub end: int,
    pub perm: MapPermission,
    pub data: Seq<u8>,
}

impl View for MapArea {
    type V = AreaView;

    open spec fn view(&self) -> AreaView {
        AreaView {
            start: self.start as int,
            end: self.end as int,
            perm: self.perm,
            data: self.data@,
        }
    }
}

/// The address space of one task.
pub struct MemorySet {
    pub areas: Vec<MapArea>,
}

impl View for MemorySet {
    type V = Seq<AreaView>;

    open spec fn view(&self) -> Seq<AreaView> {
        Seq::new(self.areas@.len(), |i: int| self.areas@[i]@)
    }
}

/// A sequence of `n` zero bytes.
pub open spec fn zeros(n: int) -> Seq<u8> {
    Seq::new(n as nat, |i: int| 0u8)
}

/// Whether the half-open ranges `[s1, e1)` and `[s2, e2)` share an address.
pub open spec fn ranges_intersect(s1: int, e1: int, s2: int, e2: int) -> bool {
    s1 < e2 && s2 < e1 && s1 < e1 && s2 < e2
}

/// A single area is well formed: non-empty, page-aligned at its start, fully backed.
pub open spec fn area_wf(a: AreaView) -> bool {
    &&& 0 <= a.start < a.end <= usize::MAX
    &&& is_page_aligned(a.start)
    &&& a.data.len() == a.end - a.start
}

/// Every area is well formed and no two areas overlap.
pub open spec fn areas_wf(s: Seq<AreaView>) -> bool {
    &&& forall|i: int| 0 <= i < s.len() ==> area_wf(#[trigger] s[i])
    &&& forall|i: int, j: int|
        0 <= i < j < s.len() ==> !ranges_intersect(
            (#[trigger] s[i]).start,
            s[i].end,
            (#[trigger] s[j]).start,
            s[j].end,
        )
}

/// Whether `[start, end)` shares an address with some area of `s`.
pub open spec fn conflicts(s: Seq<AreaView>, start: int, end: int) -> bool {
    exists|i: int|
        0 <= i < s.len() && ranges_intersect((#[trigger] s[i]).start, s[i].end, start, end)
}

/// Whether `addr` lies inside some area of `s`.
pub open spec fn is_mapped(s: Seq<AreaView>, addr: int) -> bool {
    exists|i: int| 0 <= i < s.len() && (#[trigger] s[i]).start <= addr < s[i].end
}

/// Index of the area that holds `addr` (meaningful when `is_mapped(s, addr)`).
pub open spec fn area_index(s: Seq<AreaView>, addr: int) -> int {
    choose|i: int| 0 <= i < s.len() && (#[trigger] s[i]).start <= addr < s[i].end
}

/// Permissions in force at `addr` (meaningful when `is_mapped(s, addr)`).
pub open spec fn perm_at(s: Seq<AreaView>, addr: int) -> MapPermission {
    s[area_index(s, addr)].perm
}

/// The byte stored at `addr` (meaningful when `is_mapped(s, addr)`).
pub open spec fn byte_at(s: Seq<AreaView>, addr: int) -> u8 {
    let a = s[area_index(s, addr)];
    a.data[addr - a.start]
}

/// Whether some area of `s` is exactly `[start, end)`.
pub open spec fn has_area(s: Seq<AreaView>, start: int, end: int) -> bool {
    exists|i: int| 0 <= i < s.len() && (#[trigger] s[i]).start == start && s[i].end == end
}

/// Index of the area that is exactly `[start, end)` (meaningful when `has_area`).
pub open spec fn exact_index(s: Seq<AreaView>, start: int, end: int) -> int {
    choose|i: int| 0 <= i < s.len() && (#[trigger] s[i]).start == start && s[i].end == end
}

/// Whether a new area `[start, end)` may be added to `s`.
pub open spec fn can_insert(s: Seq<AreaView>, start: int, end: int) -> bool {
    is_page_aligned(start) && start < end && !conflicts(s, start, end)
}

/// Whether the area `[start, old_end)`, or an empty area at `start`, can
/// grow to `[start, new_end)`: the area exists (or `start` is page-aligned
/// and nothing is there), and the addresses it gains are free.
pub open spec fn can_grow(s: Seq<AreaView>, start: int, old_end: int, new_end: int) -> bool {
    &&& 0 <= start <= old_end < new_end <= usize::MAX
    &&& !conflicts(s, old_end, new_end)
    &&& if old_end == start {
        is_page_aligned(start)
    } else {
        has_area(s, start, old_end)
    }
}

/// The address space after the area at `start` grew to `[start, new_end)`:
/// what it gains is zero-filled; an empty area comes into being with `perm`.
pub open spec fn grown(
    s: Seq<AreaView>,
    start: int,
    old_end: int,
    new_end: int,
    perm: MapPermission,
) -> Seq<AreaView> {
    if old_end == start {
        s.push(AreaView { start, end: new_end, perm, data: zeros(new_end - start) })
    } else {
        let i = exact_index(s, start, old_end);
        s.update(
            i,
            AreaView { end: new_end, data: s[i].data.add(zeros(new_end - old_end)), ..s[i] },
        )
    }
}

/// Whether the area `[start, old_end)` can shrink to `[start, new_end)`.
pub open spec fn can_shrink(s: Seq<AreaView>, start: int, old_end: int, new_end: int) -> bool {
    start <= new_end < old_end && has_area(s, start, old_end)
}

/// The address space after the area `[start, old_end)` shrank to
/// `[start, new_end)`: it keeps its first bytes, and disappears when
/// nothing is left of it.
pub open spec fn shrunk(s: Seq<AreaView>, start: int, old_end: int, new_end: int) -> Seq<
    AreaView,
> {
    let i = exact_index(s, start, old_end);
    if new_end == start {
        s.remove(i)
    } else {
        s.update(i, AreaView { end: new_end, data: s[i].data.subrange(0, new_end - start), ..s[i] })
    }
}

/// Permissions of program code and data: everything, from user mode.
pub open spec fn image_perm() -> MapPermission {
    MapPermission { r: true, w: true, x: true, u: true }
}

/// Permissions of stack and heap: read and write, from user mode.
pub open spec fn data_perm() -> MapPermission {
    MapPermission { r: true, w: true, x: false, u: true }
}

/// Whether a program image of `len` bytes, with its stack, fits below the
/// largest address that a system call can return.
pub open spec fn image_fits(len: int) -> bool {
    len <= isize::MAX - IMAGE_BASE - 2 * PAGE_SIZE - USER_STACK_SIZE
}

/// Lowest address of the user stack of an image of `len` bytes: one guard
/// page above the page in which the image ends.
pub open spec fn stack_bottom(len: int) -> int {
    page_ceil(IMAGE_BASE + len) + PAGE_SIZE
}

/// End of the user stack of an image of `len` bytes; the heap starts here.
pub open spec fn stack_top(len: int) -> int {
    stack_bottom(len) + USER_STACK_SIZE
}

/// The address space of a freshly loaded program: the image at
/// `IMAGE_BASE` (unless it is empty), then a zeroed stack.
pub open spec fn image_areas(image: Seq<u8>) -> Seq<AreaView> {
    let len = image.len() as int;
    let code = AreaView {
        start: IMAGE_BASE as int,
        end: IMAGE_BASE + len,
        perm: image_perm(),
        data: image,
    };
    let stack = AreaView {
        start: stack_bottom(len),
        end: stack_top(len),
        perm: data_perm(),
        data: zeros(USER_STACK_SIZE as int),
    };
    if len == 0 {
        seq![stack]
    } else {
        seq![code, stack]
    }
}

/// In a well-formed address space an address belongs to at most one area.
pub proof fn lemma_area_unique(s: Seq<AreaView>, i: int, addr: int)
    requires
        areas_wf(s),
        0 <= i < s.len(),
        s[i].start <= addr < s[i].end,
    ensures
        is_mapped(s, addr),
        area_index(s, addr) == i,
{
    let j = area_index(s, addr);
    if j < i {
        assert(!ranges_intersect(s[j].start, s[j].end, s[i].start, s[i].end));
    } else if i < j {
        assert(!ranges_intersect(s[i].start, s[i].end, s[j].start, s[j].end));
    }
}

/// In a well-formed address space at most one area has given bounds.
pub proof fn lemma_exact_unique(s: Seq<AreaView>, i: int)
    requires
        areas_wf(s),
        0 <= i < s.len(),
    ensures
        has_area(s, s[i].start, s[i].end),
        exact_index(s, s[i].start, s[i].end) == i,
{
    let j = exact_index(s, s[i].start, s[i].end);
    assert(area_wf(s[i]));
    if j < i {
        assert(!ranges_intersect(s[j].start, s[j].end, s[i].start, s[i].end));
    } else if i < j {
        assert(!ranges_intersect(s[i].start, s[i].end, s[j].start, s[j].end));
    }
}

/// A new area that is free to insert keeps the invariant.
pub proof fn lemma_insert_wf(s: Seq<AreaView>, area: AreaView)
    requires
        areas_wf(s),
        area_wf(area),
        !conflicts(s, area.start, area.end),
    ensures
        areas_wf(s.push(area)),
{
    let t = s.push(area);
    let n = s.len() as int;
    assert forall|i: int, j: int| 0 <= i < j < t.len() implies !ranges_intersect(
        (#[trigger] t[i]).start,
        t[i].end,
        (#[trigger] t[j]).start,
        t[j].end,
    ) by {
        if j == n {
            assert(!ranges_intersect(s[i].start, s[i].end, area.start, area.end));
        } else {
            assert(!ranges_intersect(s[i].start, s[i].end, s[j].start, s[j].end));
        }
    }
}

/// Removing an area keeps the invariant, and frees its addresses.
pub proof fn lemma_remove_wf(s: Seq<AreaView>, i: int)
    requires
        areas_wf(s),
        0 <= i < s.len(),
    ensures
        areas_wf(s.remove(i)),
        !conflicts(s.remove(i), s[i].start, s[i].end),
        forall|a: int| s[i].start <= a < s[i].end ==> !is_mapped(s.remove(i), a),
        !has_area(s.remove(i), s[i].start, s[i].end),
{
    let t = s.remove(i);
    assert forall|a: int, b: int| 0 <= a < b < t.len() implies !ranges_intersect(
        (#[trigger] t[a]).start,
        t[a].end,
        (#[trigger] t[b]).start,
        t[b].end,
    ) by {
        let a0 = if a < i { a } else { a + 1 };
        let b0 = if b < i { b } else { b + 1 };
        assert(t[a] == s[a0] && t[b] == s[b0]);
    }
    assert forall|a: int| 0 <= a < t.len() implies area_wf(#[trigger] t[a]) && !ranges_intersect(
        t[a].start,
        t[a].end,
        s[i].start,
        s[i].end,
    ) by {
        let a0 = if a < i { a } else { a + 1 };
        assert(t[a] == s[a0]);
        assert(area_wf(s[a0]));
        if a0 < i {
            assert(!ranges_intersect(s[a0].start, s[a0].end, s[i].start, s[i].end));
        } else {
            assert(!ranges_intersect(s[i].start, s[i].end, s[a0].start, s[a0].end));
        }
    }
    assert(area_wf(s[i]));
}

impl MemorySet {
    /// The invariant of an address space.
    pub open spec fn wf(&self) -> bool {
        areas_wf(self@)
    }

    /// An address space without any area.
    pub fn new_bare() -> (ms: MemorySet)
        ensures
            ms@ == Seq::<AreaView>::empty(),
            ms.wf(),
    {
        let ms = MemorySet { areas: Vec::new() };
        assert(ms@ =~= Seq::<AreaView>::empty());
        ms
    }

    /// Number of areas.
    pub fn area_count(&self) -> (n: usize)
        ensures
            n == self@.len(),
    {
        self.areas.len()
    }

    /// Tells whether `[start, end)` intersects an existing area.
    pub fn is_conflict_range(&self, start: usize, end: usize) -> (r: bool)
        ensures
            r == conflicts(self@, start as int, end as int),
    {
        let mut i: usize = 0;
        while i < self.areas.len()
            invariant
                i <= self.areas@.len(),
                forall|k: int|
                    0 <= k < i ==> !ranges_intersect(
                        (#[trigger] self@[k]).start,
                        self@[k].end,
                        start as int,
                        end as int,
                    ),
            decreases self.areas@.len() - i,
        {
            let a = &self.areas[i];
            if a.start < end && start < a.end && a.start < a.end && start < end {
                assert(ranges_intersect(self@[i as int].start, self@[i as int].end, start as int, end as int));
                return true;
            }
            i += 1;
        }
        false
    }

    /// Finds the area that holds `addr`.
    pub fn find_area(&self, addr: usize) -> (r: Option<usize>)
        requires
            self.wf(),
        ensures
            r is Some <==> is_mapped(self@, addr as int),
            r is Some ==> r->0 == area_index(self@, addr as int) && r->0 < self@.len(),
    {
        let mut i: usize = 0;
        while i < self.areas.len()
            invariant
                i <= self.areas@.len(),
                self.wf(),
                forall|k: int| 0 <= k < i ==> !((#[trigger] self@[k]).start <= addr < self@[k].end),
            decreases self.areas@.len() - i,
        {
            let a = &self.areas[i];
            if a.start <= addr && addr < a.end {
                proof {
                    assert(self@[i as int].start <= addr < self@[i as int].end);
                    lemma_area_unique(self@, i as int, addr as int);
                }
                return Some(i);
            }
            i += 1;
        }
        None
    }

    /// Permissions in force at `addr`, if it is mapped.
    pub fn permission_at(&self, addr: usize) -> (r: Option<MapPermission>)
        requires
            self.wf(),
        ensures
            r is Some <==> is_mapped(self@, addr as int),
            r is Some ==> r->0 == perm_at(self@, addr as int),
    {
        match self.find_area(addr) {
            Some(i) => Some(self.areas[i].perm),
            None => None,
        }
    }

    /// Records a new zero-filled area `[start, end)` with the given permissions.
    ///
    /// Refuses, leaving the address space as it was, when `start` is not
    /// page-aligned, the range is empty, or it overlaps an existing area.
    pub fn insert_framed_area(&mut self, start: usize, end: usize, perm: MapPermission) -> (ok:
        bool)
        requires
            old(self).wf(),
        ensures
            final(self).wf(),
            ok == can_insert(old(self)@, start as int, end as int),
            ok ==> final(self)@ == old(self)@.push(
                AreaView {
                    start: start as int,
                    end: end as int,
                    perm,
                    data: zeros(end - start),
                },
            ),
            !ok ==> final(self)@ == old(self)@,
    {
        if !page_aligned(start) || start >= end || self.is_conflict_range(start, end) {
            return false;
        }
        let n: usize = end - start;
        let data = vec![0u8; n];
        assert(data@ =~= zeros(end - start));
        self.areas.push(MapArea { start, end, perm, data });
        proof {
            let new = AreaView {
                start: start as int,
                end: end as int,
                perm,
                data: zeros(end - start),
            };
            assert(self@ =~= old(self)@.push(new));
            lemma_insert_wf(old(self)@, new);
        }
        true
    }

    /// Removes the area that is exactly `[start, end)`.
    ///
    /// Returns 0 when such an area existed and -1, changing nothing, otherwise.
    pub fn unmap_area(&mut self, start: usize, end: usize) -> (r: isize)
        requires
            old(self).wf(),
        ensures
            final(self).wf(),
            has_area(old(self)@, start as int, end as int) ==> r == 0 && final(self)@ == old(
                self,
            )@.remove(exact_index(old(self)@, start as int, end as int)),
            !has_area(old(self)@, start as int, end as int) ==> r == -1 && final(self)@ == old(
                self,
            )@,
    {
        let mut i: usize = 0;
        while i < self.areas.len()
            invariant
                i <= self.areas@.len(),
                self.wf(),
                *self == *old(self),
                forall|k: int|
                    0 <= k < i ==> !((#[trigger] self@[k]).start == start && self@[k].end == end),
            decreases self.areas@.len() - i,
        {
            if self.areas[i].start == start && self.areas[i].end == end {
                proof {
                    assert(self@[i as int].start == start && self@[i as int].end == end);
                    lemma_exact_unique(self@, i as int);
                }
                self.areas.remove(i);
                proof {
                    assert(self@ =~= old(self)@.remove(i as int));
                    lemma_remove_wf(old(self)@, i as int);
                }
                return 0;
            }
            i += 1;
        }
        -1
    }

    /// Finds the area that is exactly `[start, end)`.
    pub fn find_exact(&self, start: usize, end: usize) -> (r: Option<usize>)
        requires
            self.wf(),
        ensures
            r is Some <==> has_area(self@, start as int, end as int),
            r is Some ==> r->0 == exact_index(self@, start as int, end as int) && r->0
                < self@.len(),
    {
        let mut i: usize = 0;
        while i < self.areas.len()
            invariant
                i <= self.areas@.len(),
                self.wf(),
                forall|k: int|
                    0 <= k < i ==> !((#[trigger] self@[k]).start == start && self@[k].end == end),
            decreases self.areas@.len() - i,
        {
            if self.areas[i].start == start && self.areas[i].end == end {
                proof {
                    assert(self@[i as int].start == start && self@[i as int].end == end);
                    lemma_exact_unique(self@, i as int);
                }
                return Some(i);
            }
            i += 1;
        }
        None
    }

    /// Lets the area `[start, old_end)` grow to `[start, new_end)`; where
    /// `old_end == start` no area is there yet and one is made, with `perm`.
    ///
    /// Refuses, changing nothing, when the area is missing or the
    /// addresses it would gain are taken.
    pub fn grow_area(
        &mut self,
        start: usize,
        old_end: usize,
        new_end: usize,
        perm: MapPermission,
    ) -> (ok: bool)
        requires
            old(self).wf(),
        ensures
            final(self).wf(),
            ok == can_grow(old(self)@, start as int, old_end as int, new_end as int),
            ok ==> final(self)@ == grown(
                old(self)@,
                start as int,
                old_end as int,
                new_end as int,
                perm,
            ),
            !ok ==> final(self)@ == old(self)@,
    {
        if start > old_end || old_end >= new_end {
            return false;
        }
        if old_end == start {
            return self.insert_framed_area(start, new_end, perm);
        }
        if self.is_conflict_range(old_end, new_end) {
            return false;
        }
        let i = match self.find_exact(start, old_end) {
            Some(i) => i,
            None => {
                return false;
            },
        };
        assert(self@[i as int] == self.areas@[i as int]@);
        assert(area_wf(self@[i as int]));
        self.areas[i].end = new_end;
        push_zeros(&mut self.areas[i].data, new_end - old_end);
        proof {
            let o = old(self)@;
            let s = self@;
            assert(s[i as int].data =~= o[i as int].data.add(zeros(new_end - old_end)));
            assert(s =~= grown(o, start as int, old_end as int, new_end as int, perm));
            assert forall|a: int| 0 <= a < s.len() implies area_wf(#[trigger] s[a]) by {
                if a != i {
                    assert(s[a] == o[a]);
                }
            }
            assert forall|a: int, b: int| 0 <= a < b < s.len() implies !ranges_intersect(
                (#[trigger] s[a]).start,
                s[a].end,
                (#[trigger] s[b]).start,
                s[b].end,
            ) by {
                assert(!ranges_intersect(o[a].start, o[a].end, o[b].start, o[b].end));
                assert(!ranges_intersect(o[a].start, o[a].end, old_end as int, new_end as int));
                assert(!ranges_intersect(o[b].start, o[b].end, old_end as int, new_end as int));
                assert(area_wf(o[a]) && area_wf(o[b]));
            }
        }
        true
    }

    /// Lets the area `[start, old_end)` shrink to `[start, new_end)`; an
    /// area of which nothing is left is removed.
    ///
    /// Refuses, changing nothing, when the area is missing.
    pub fn shrink_area(&mut self, start: usize, old_end: usize, new_end: usize) -> (ok: bool)
        requires
            old(self).wf(),
        ensures
            final(self).wf(),
            ok == can_shrink(old(self)@, start as int, old_end as int, new_end as int),
            ok ==> final(self)@ == shrunk(old(self)@, start as int, old_end as int, new_end as int),
            !ok ==> final(self)@ == old(self)@,
    {
        if start > new_end || new_end >= old_end {
            return false;
        }
        let i = match self.find_exact(start, old_end) {
            Some(i) => i,
            None => {
                return false;
            },
        };
        if new_end == start {
            let r = self.unmap_area(start, old_end);
            return true;
        }
        assert(self@[i as int] == self.areas@[i as int]@);
        assert(area_wf(self@[i as int]));
        self.areas[i].end = new_end;
        self.areas[i].data.truncate(new_end - start);
        proof {
            let o = old(self)@;
            let s = self@;
            assert(s =~= shrunk(o, start as int, old_end as int, new_end as int));
            assert forall|a: int| 0 <= a < s.len() implies area_wf(#[trigger] s[a]) by {
                if a != i {
                    assert(s[a] == o[a]);
                }
            }
            assert forall|a: int, b: int| 0 <= a < b < s.len() implies !ranges_intersect(
                (#[trigger] s[a]).start,
                s[a].end,
                (#[trigger] s[b]).start,
                s[b].end,
            ) by {
                assert(!ranges_intersect(o[a].start, o[a].end, o[b].start, o[b].end));
                assert(area_wf(o[a]) && area_wf(o[b]));
            }
        }
        true
    }

    /// Builds the address space of a freshly loaded program: the image,
    /// a guard page, a zeroed stack.
    ///
    /// Fails when image and stack would not fit in the address range.
    pub fn from_image(image: &Vec<u8>) -> (r: Option<MemorySet>)
        ensures
            r is Some <==> image_fits(image@.len() as int),
            r is Some ==> r->0@ == image_areas(image@) && r->0.wf(),
    {
        let len = image.len();
        if len > (isize::MAX as usize) - IMAGE_BASE - 2 * PAGE_SIZE - USER_STACK_SIZE {
            return None;
        }
        let mut areas: Vec<MapArea> = Vec::new();
        if len > 0 {
            let data = image.clone();
            assert(data@ =~= image@);
            areas.push(
                MapArea {
                    start: IMAGE_BASE,
                    end: IMAGE_BASE + len,
                    perm: MapPermission { r: true, w: true, x: true, u: true },
                    data,
                },
            );
        }
        let bottom: usize = (IMAGE_BASE + len + PAGE_SIZE - 1) / PAGE_SIZE * PAGE_SIZE + PAGE_SIZE;
        let stack = vec![0u8; USER_STACK_SIZE];
        assert(stack@ =~= zeros(USER_STACK_SIZE as int));
        areas.push(
            MapArea {
                start: bottom,
                end: bottom + USER_STACK_SIZE,
                perm: MapPermission { r: true, w: true, x: false, u: true },
                data: stack,
            },
        );
        let ms = MemorySet { areas };
        assert(ms@ =~= image_areas(image@));
        Some(ms)
    }

    /// An independent copy of this address space: same areas, same
    /// permissions, same contents.
    pub fn from_existed_user(&self) -> (ms: MemorySet)
        requires
            self.wf(),
        ensures
            ms@ == self@,
            ms.wf(),
    {
        let mut areas: Vec<MapArea> = Vec::new();
        let mut i: usize = 0;
        while i < self.areas.len()
            invariant
                i <= self.areas@.len(),
                areas@.len() == i,
                forall|k: int| 0 <= k < i ==> (#[trigger] areas@[k])@ == self.areas@[k]@,
            decreases self.areas@.len() - i,
        {
            let a = &self.areas[i];
            let data = a.data.clone();
            assert(data@ =~= a.data@);
            areas.push(MapArea { start: a.start, end: a.end, perm: a.perm, data });
            i += 1;
        }
        let ms = MemorySet { areas };
        assert(ms@ =~= self@);
        ms
    }
}

} // verus!
