//! Access to the memory of a task from the kernel: a user buffer is never
//! assumed to be one contiguous slice but is handled as the sequence of
//! page-bounded segments that make it up.

use crate::config::PAGE_SIZE;
use crate::mm::memory_set::{
    area_index, area_wf, areas_wf, byte_at, is_mapped, lemma_area_unique, perm_at, ranges_intersect,
    AreaView, MapPermission, MemorySet,
};
use vstd::prelude::*;

verus! {

/// The direction of an access to user memory.
#[derive(Clone, Copy, Debug, PartialEq, Eq, Structural)]
pub enum Access {
    /// The kernel reads what the task wrote.
    Read,
    /// The kernel writes what the task will read.
    Write,
}

/// One contiguous piece of a user buffer; it never crosses a page boundary.
#[derive(Clone, Copy, Debug, PartialEq, Eq, Structural)]
pub struct Segment {
    pub addr: usize,
    pub len: usize,
}

/// Whether permissions `p` let a user buffer be accessed in direction `access`.
pub open spec fn allows(p: MapPermission, access: Access) -> bool {
    p.u && match access {
        Access::Read => p.r,
        Access::Write => p.w,
    }
}

/// Whether the byte at `addr` is mapped with the rights that `access` needs.
pub open spec fn accessible(s: Seq<AreaView>, addr: int, access: Access) -> bool {
    is_mapped(s, addr) && allows(perm_at(s, addr), access)
}

/// Whether every byte of `[ptr, ptr + len)` is accessible.
pub open spec fn range_accessible(s: Seq<AreaView>, ptr: int, len: int, access: Access) -> bool {
    forall|a: int| ptr <= a < ptr + len ==> #[trigger] accessible(s, a, access)
}

/// Length of the first segment of a buffer of `len > 0` bytes at `addr`: up
/// to the end of the buffer or the end of the page, whichever comes first.
pub open spec fn chunk_len(addr: int, len: int) -> int {
    let room = PAGE_SIZE as int - addr % (PAGE_SIZE as int);
    if len < room {
        len
    } else {
        room
    }
}

/// The segments of the buffer `[addr, addr + len)`, split at page boundaries.
pub open spec fn page_split(addr: int, len: int) -> Seq<Segment>
    decreases len,
{
    if len <= 0 {
        Seq::empty()
    } else {
        let n = chunk_len(addr, len);
        seq![Segment { addr: addr as usize, len: n as usize }].add(page_split(addr + n, len - n))
    }
}

/// The `len` bytes stored from `ptr` on.
pub open spec fn bytes_at(s: Seq<AreaView>, ptr: int, len: int) -> Seq<u8> {
    Seq::new(len as nat, |k: int| byte_at(s, ptr + k))
}

/// The address space `s` after `data` was stored from `ptr` on: the same
/// areas with the same permissions, and new contents in `[ptr, ptr + |data|)`.
pub open spec fn write_bytes(s: Seq<AreaView>, ptr: int, data: Seq<u8>) -> Seq<AreaView> {
    Seq::new(
        s.len(),
        |i: int|
            AreaView {
                start: s[i].start,
                end: s[i].end,
                perm: s[i].perm,
                data: Seq::new(
                    s[i].data.len(),
                    |k: int|
                        if ptr <= s[i].start + k < ptr + data.len() {
                            data[s[i].start + k - ptr]
                        } else {
                            s[i].data[k]
                        },
                ),
            },
    )
}

/// Whether `bytes`, followed by a zero byte, is what is stored at `ptr`, all
/// of it readable: `bytes` is the NUL-terminated string at `ptr`.
pub open spec fn is_c_string_at(s: Seq<AreaView>, ptr: int, bytes: Seq<u8>) -> bool {
    &&& forall|a: int| ptr <= a <= ptr + bytes.len() ==> #[trigger] accessible(s, a, Access::Read)
    &&& forall|k: int|
        0 <= k < bytes.len() ==> byte_at(s, ptr + k) == #[trigger] bytes[k] && bytes[k] != 0
    &&& byte_at(s, ptr + bytes.len()) == 0
}

/// The NUL-terminated string at `ptr`, if there is one.
pub open spec fn c_string_at(s: Seq<AreaView>, ptr: int) -> Option<Seq<u8>> {
    if exists|b: Seq<u8>| is_c_string_at(s, ptr, b) {
        Some(choose|b: Seq<u8>| is_c_string_at(s, ptr, b))
    } else {
        None
    }
}

/// There is at most one NUL-terminated string at an address.
pub proof fn lemma_c_string_unique(s: Seq<AreaView>, ptr: int, a: Seq<u8>, b: Seq<u8>)
    requires
        is_c_string_at(s, ptr, a),
        is_c_string_at(s, ptr, b),
    ensures
        a == b,
{
    if a.len() < b.len() {
        assert(b[a.len() as int] != 0);
    } else if b.len() < a.len() {
        assert(a[b.len() as int] != 0);
    } else {
        assert forall|k: int| 0 <= k < a.len() implies a[k] == b[k] by {
            assert(byte_at(s, ptr + k) == a[k]);
            assert(byte_at(s, ptr + k) == b[k]);
        }
        assert(a =~= b);
    }
}

/// An area that ends inside a page is followed by unmapped addresses: no
/// other area can start before the next page boundary.
pub proof fn lemma_gap_after_area(s: Seq<AreaView>, i: int, addr: int)
    requires
        areas_wf(s),
        0 <= i < s.len(),
        s[i].start <= addr < s[i].end,
        s[i].end < addr - addr % (PAGE_SIZE as int) + PAGE_SIZE,
    ensures
        !is_mapped(s, s[i].end),
{
    let e = s[i].end;
    if is_mapped(s, e) {
        let j = area_index(s, e);
        assert(s[j].start <= e < s[j].end);
        assert(j != i);
        if j < i {
            assert(!ranges_intersect(s[j].start, s[j].end, s[i].start, s[i].end));
        } else {
            assert(!ranges_intersect(s[i].start, s[i].end, s[j].start, s[j].end));
        }
        assert(s[j].start == e);
        assert(s[j].start % (PAGE_SIZE as int) == 0);
        assert(false);
    }
}

/// Decides whether permissions `p` allow `access`.
pub fn permits(p: MapPermission, access: Access) -> (r: bool)
    ensures
        r == allows(p, access),
{
    p.u && match access {
        Access::Read => p.r,
        Access::Write => p.w,
    }
}

/// Translates the user buffer `[ptr, ptr + len)` into its page-bounded
/// segments, provided every byte of it may be accessed as `access` asks.
pub fn translated_byte_buffer(ms: &MemorySet, ptr: usize, len: usize, access: Access) -> (r:
    Option<Vec<Segment>>)
    requires
        ms.wf(),
    ensures
        r is Some <==> range_accessible(ms@, ptr as int, len as int, access),
        r is Some ==> r->0@ == page_split(ptr as int, len as int),
{
    let mut segs: Vec<Segment> = Vec::new();
    let mut cur: usize = ptr;
    let mut left: usize = len;
    assert(segs@.add(page_split(cur as int, left as int)) =~= page_split(ptr as int, len as int));
    while left > 0
        invariant
            ms.wf(),
            cur - ptr + left == len,
            ptr <= cur,
            forall|a: int| ptr <= a < cur ==> #[trigger] accessible(ms@, a, access),
            segs@.add(page_split(cur as int, left as int)) == page_split(ptr as int, len as int),
        decreases left,
    {
        let i = match ms.find_area(cur) {
            Some(i) => i,
            None => {
                assert(!accessible(ms@, cur as int, access));
                return None;
            },
        };
        let area = &ms.areas[i];
        assert(ms@[i as int] == area@);
        if !permits(area.perm, access) {
            assert(!accessible(ms@, cur as int, access));
            return None;
        }
        assert(cur & 4095 == cur % 4096) by (bit_vector);
        let room: usize = PAGE_SIZE - (cur & (PAGE_SIZE - 1));
        let n: usize = if left < room {
            left
        } else {
            room
        };
        assert(n == chunk_len(cur as int, left as int));
        if area.end - cur < n {
            proof {
                lemma_gap_after_area(ms@, i as int, cur as int);
                assert(!accessible(ms@, area.end as int, access));
            }
            return None;
        }
        proof {
            assert forall|a: int| ptr <= a < cur + n implies #[trigger] accessible(
                ms@,
                a,
                access,
            ) by {
                if a >= cur {
                    lemma_area_unique(ms@, i as int, a);
                }
            }
            let rest = page_split(cur + n, left - n);
            let seg = Segment { addr: cur, len: n };
            assert(page_split(cur as int, left as int) == seq![seg].add(rest));
            assert(segs@.push(seg).add(rest) =~= segs@.add(seq![seg].add(rest)));
        }
        segs.push(Segment { addr: cur, len: n });
        cur = cur + n;
        left = left - n;
    }
    assert(page_split(cur as int, left as int) =~= Seq::<Segment>::empty());
    assert(segs@.add(Seq::<Segment>::empty()) =~= segs@);
    Some(segs)
}

/// Copies `len` bytes out of user memory at `ptr`, segment by segment.
///
/// Fails when some byte of the buffer is not readable by the task.
pub fn copy_from_user(ms: &MemorySet, ptr: usize, len: usize) -> (r: Option<Vec<u8>>)
    requires
        ms.wf(),
    ensures
        r is Some <==> range_accessible(ms@, ptr as int, len as int, Access::Read),
        r is Some ==> r->0@ == bytes_at(ms@, ptr as int, len as int),
{
    let segs = match translated_byte_buffer(ms, ptr, len, Access::Read) {
        Some(segs) => segs,
        None => {
            return None;
        },
    };
    let mut out: Vec<u8> = Vec::new();
    let mut k: usize = 0;
    let ghost mut cur: int = ptr as int;
    let ghost mut left: int = len as int;
    assert(segs@.subrange(0, segs@.len() as int) =~= segs@);
    while k < segs.len()
        invariant
            ms.wf(),
            k <= segs@.len(),
            range_accessible(ms@, ptr as int, len as int, Access::Read),
            ptr <= cur,
            left >= 0,
            cur - ptr + left == len,
            segs@.subrange(k as int, segs@.len() as int) == page_split(cur, left),
            out@ == bytes_at(ms@, ptr as int, cur - ptr),
        decreases segs@.len() - k,
    {
        let seg = segs[k];
        proof {
            let sub = segs@.subrange(k as int, segs@.len() as int);
            assert(sub[0] == seg);
            if left <= 0 {
                assert(page_split(cur, left).len() == 0);
            }
            let n = chunk_len(cur, left);
            let rest = page_split(cur + n, left - n);
            assert(accessible(ms@, cur, Access::Read));
            let first = Segment { addr: cur as usize, len: n as usize };
            assert(sub == seq![first].add(rest));
            assert(seg.addr == cur && seg.len == n);
            let tail = segs@.subrange(k as int + 1, segs@.len() as int);
            assert(seq![first].add(rest).len() == 1 + rest.len());
            assert(sub.len() == segs@.len() - k);
            assert(tail.len() == rest.len());
            assert forall|x: int| 0 <= x < tail.len() implies tail[x] == rest[x] by {
                assert(tail[x] == sub[x + 1]);
            }
            assert(tail =~= rest);
        }
        let i = match ms.find_area(seg.addr) {
            Some(i) => i,
            None => {
                return None;
            },
        };
        let area = &ms.areas[i];
        assert(ms@[i as int] == area@);
        proof {
            if area.end < seg.addr + seg.len {
                lemma_gap_after_area(ms@, i as int, cur);
                assert(accessible(ms@, area.end as int, Access::Read));
            }
        }
        let off: usize = seg.addr - area.start;
        let mut j: usize = 0;
        while j < seg.len
            invariant
                ms.wf(),
                j <= seg.len,
                i < ms.areas@.len(),
                area == &ms.areas@[i as int],
                ms@[i as int] == area@,
                areas_wf(ms@),
                seg.addr == cur,
                ptr <= cur,
                off == seg.addr - area.start,
                area.start <= seg.addr,
                seg.addr + seg.len <= area.end,
                out@ == bytes_at(ms@, ptr as int, cur - ptr + j),
            decreases seg.len - j,
        {
            assert(area@.data.len() == area.end - area.start);
            let b = area.data[off + j];
            proof {
                lemma_area_unique(ms@, i as int, cur + j);
                assert(byte_at(ms@, cur + j) == b);
                assert(out@.push(b) =~= bytes_at(ms@, ptr as int, cur - ptr + j + 1));
            }
            out.push(b);
            j += 1;
        }
        proof {
            cur = cur + seg.len;
            left = left - seg.len;
        }
        k += 1;
    }
    proof {
        if left > 0 {
            assert(page_split(cur, left).len() > 0);
        }
    }
    Some(out)
}

/// Stores `data` into user memory at `ptr`, segment by segment.
///
/// Fails, changing nothing, when some byte of the destination is not
/// writable by the task.
pub fn copy_to_user(ms: &mut MemorySet, ptr: usize, data: &Vec<u8>) -> (ok: bool)
    requires
        old(ms).wf(),
    ensures
        final(ms).wf(),
        ok == range_accessible(old(ms)@, ptr as int, data@.len() as int, Access::Write),
        ok ==> final(ms)@ == write_bytes(old(ms)@, ptr as int, data@),
        !ok ==> final(ms)@ == old(ms)@,
{
    let len = data.len();
    let segs = match translated_byte_buffer(ms, ptr, len, Access::Write) {
        Some(segs) => segs,
        None => {
            return false;
        },
    };
    let mut k: usize = 0;
    let ghost mut cur: int = ptr as int;
    let ghost mut left: int = len as int;
    let ghost orig = ms@;
    assert(segs@.subrange(0, segs@.len() as int) =~= segs@);
    proof {
        lemma_write_none(orig, ptr as int);
        assert(data@.subrange(0, 0) =~= Seq::<u8>::empty());
    }
    while k < segs.len()
        invariant
            orig == old(ms)@,
            areas_wf(orig),
            ms.wf(),
            len == data@.len(),
            k <= segs@.len(),
            range_accessible(orig, ptr as int, len as int, Access::Write),
            ptr <= cur,
            left >= 0,
            cur - ptr + left == len,
            segs@.subrange(k as int, segs@.len() as int) == page_split(cur, left),
            ms@ == write_bytes(orig, ptr as int, data@.subrange(0, cur - ptr)),
        decreases segs@.len() - k,
    {
        let seg = segs[k];
        proof {
            let sub = segs@.subrange(k as int, segs@.len() as int);
            assert(sub[0] == seg);
            if left <= 0 {
                assert(page_split(cur, left).len() == 0);
            }
            let n = chunk_len(cur, left);
            let rest = page_split(cur + n, left - n);
            assert(accessible(orig, cur, Access::Write));
            let first = Segment { addr: cur as usize, len: n as usize };
            assert(sub == seq![first].add(rest));
            assert(seg.addr == cur && seg.len == n);
            let tail = segs@.subrange(k as int + 1, segs@.len() as int);
            assert(seq![first].add(rest).len() == 1 + rest.len());
            assert(sub.len() == segs@.len() - k);
            assert(tail.len() == rest.len());
            assert forall|x: int| 0 <= x < tail.len() implies tail[x] == rest[x] by {
                assert(tail[x] == sub[x + 1]);
            }
            assert(tail =~= rest);
        }
        let found = ms.find_area(seg.addr);
        proof {
            lemma_write_keeps_shape(orig, ptr as int, data@.subrange(0, cur - ptr));
            assert(is_mapped(orig, cur));
            let i0 = area_index(orig, cur);
            assert(ms@[i0].start <= cur < ms@[i0].end);
            lemma_area_unique(ms@, i0, cur);
        }
        let i = match found {
            Some(i) => i,
            None => {
                return false;
            },
        };
        proof {
            lemma_area_unique(orig, i as int, cur);
            if orig[i as int].end < seg.addr + seg.len {
                lemma_gap_after_area(orig, i as int, cur);
                assert(accessible(orig, orig[i as int].end, Access::Write));
            }
        }
        let start = ms.areas[i].start;
        let off: usize = seg.addr - start;
        let base: usize = seg.addr - ptr;
        let mut j: usize = 0;
        while j < seg.len
            invariant
                areas_wf(orig),
                ms.wf(),
                len == data@.len(),
                j <= seg.len,
                i < ms.areas@.len(),
                i < orig.len(),
                start == orig[i as int].start,
                seg.addr == cur,
                ptr <= cur,
                base == cur - ptr,
                off == seg.addr - start,
                start <= seg.addr,
                seg.addr + seg.len <= orig[i as int].end,
                cur - ptr + seg.len <= len,
                ms@ == write_bytes(orig, ptr as int, data@.subrange(0, cur - ptr + j)),
            decreases seg.len - j,
        {
            let b = data[base + j];
            let ghost before = ms@;
            proof {
                lemma_write_keeps_shape(orig, ptr as int, data@.subrange(0, cur - ptr + j));
            }
            assert(area_wf(ms@[i as int]));
            assert(ms@[i as int] == ms.areas@[i as int]@);
            ms.areas[i].data.set(off + j, b);
            proof {
                lemma_write_one_more(orig, ptr as int, data@, cur - ptr + j, i as int);
                let target = write_bytes(orig, ptr as int, data@.subrange(0, cur - ptr + j + 1));
                assert(ms@.len() == target.len());
                assert forall|a: int| 0 <= a < target.len() implies ms@[a] == target[a] by {
                    if a == i {
                        assert(ms@[a].data =~= before[a].data.update(off + j, b));
                    } else {
                        assert(ms@[a] == before[a]);
                    }
                }
                assert(ms@ =~= target);
                lemma_write_keeps_shape(orig, ptr as int, data@.subrange(0, cur - ptr + j + 1));
            }
            j += 1;
        }
        proof {
            cur = cur + seg.len;
            left = left - seg.len;
        }
        k += 1;
    }
    proof {
        if left > 0 {
            assert(page_split(cur, left).len() > 0);
        }
        assert(data@.subrange(0, len as int) =~= data@);
    }
    true
}

/// Reads the NUL-terminated string that starts at `ptr` in user memory.
///
/// Fails when an unreadable byte comes before the terminator.
pub fn translated_str(ms: &MemorySet, ptr: usize) -> (r: Option<Vec<u8>>)
    requires
        ms.wf(),
    ensures
        r is Some ==> is_c_string_at(ms@, ptr as int, r->0@),
        r is None ==> forall|b: Seq<u8>| !is_c_string_at(ms@, ptr as int, b),
        r is Some <==> c_string_at(ms@, ptr as int) is Some,
        r is Some ==> c_string_at(ms@, ptr as int) == Some(r->0@),
{
    let mut out: Vec<u8> = Vec::new();
    let mut cur: usize = ptr;
    loop
        invariant
            ms.wf(),
            cur == ptr + out@.len(),
            forall|a: int| ptr <= a < cur ==> #[trigger] accessible(ms@, a, Access::Read),
            forall|k: int|
                0 <= k < out@.len() ==> byte_at(ms@, ptr + k) == #[trigger] out@[k] && out@[k]
                    != 0,
        decreases usize::MAX - cur,
    {
        let found = ms.find_area(cur);
        let readable = match found {
            Some(i) => permits(ms.areas[i].perm, Access::Read),
            None => false,
        };
        if !readable {
            proof {
                assert(!accessible(ms@, cur as int, Access::Read));
                assert forall|b: Seq<u8>| !is_c_string_at(ms@, ptr as int, b) by {
                    if is_c_string_at(ms@, ptr as int, b) {
                        if b.len() >= out@.len() {
                            assert(accessible(ms@, cur as int, Access::Read));
                        } else {
                            assert(out@[b.len() as int] != 0);
                        }
                    }
                }
            }
            return None;
        }
        let i = found.unwrap();
        let area = &ms.areas[i];
        assert(ms@[i as int] == area@);
        assert(area_wf(ms@[i as int]));
        let b = area.data[cur - area.start];
        proof {
            lemma_area_unique(ms@, i as int, cur as int);
        }
        if b == 0 {
            proof {
                assert(is_c_string_at(ms@, ptr as int, out@));
                lemma_c_string_unique(ms@, ptr as int, out@, c_string_at(ms@, ptr as int)->0);
            }
            return Some(out);
        }
        out.push(b);
        cur = cur + 1;
    }
}

/// Storing nothing changes nothing.
pub proof fn lemma_write_none(s: Seq<AreaView>, ptr: int)
    requires
        areas_wf(s),
    ensures
        write_bytes(s, ptr, Seq::<u8>::empty()) == s,
{
    let t = write_bytes(s, ptr, Seq::<u8>::empty());
    assert forall|i: int| 0 <= i < s.len() implies t[i] == s[i] by {
        assert(t[i].data =~= s[i].data);
    }
    assert(t =~= s);
}

/// Storing bytes keeps the bounds and permissions of every area, hence the
/// invariant of the address space and what is mapped where.
pub proof fn lemma_write_keeps_shape(s: Seq<AreaView>, ptr: int, data: Seq<u8>)
    requires
        areas_wf(s),
    ensures
        areas_wf(write_bytes(s, ptr, data)),
        write_bytes(s, ptr, data).len() == s.len(),
        forall|i: int|
            0 <= i < s.len() ==> {
                &&& (#[trigger] write_bytes(s, ptr, data)[i]).start == s[i].start
                &&& write_bytes(s, ptr, data)[i].end == s[i].end
                &&& write_bytes(s, ptr, data)[i].perm == s[i].perm
            },
{
    let t = write_bytes(s, ptr, data);
    assert forall|i: int, j: int| 0 <= i < j < t.len() implies !ranges_intersect(
        (#[trigger] t[i]).start,
        t[i].end,
        (#[trigger] t[j]).start,
        t[j].end,
    ) by {
        assert(!ranges_intersect(s[i].start, s[i].end, s[j].start, s[j].end));
    }
}

/// Storing the first `n + 1` bytes of `data` is storing the first `n` and
/// then replacing one byte of the area `i` that holds address `ptr + n`.
pub proof fn lemma_write_one_more(s: Seq<AreaView>, ptr: int, data: Seq<u8>, n: int, i: int)
    requires
        areas_wf(s),
        0 <= n < data.len(),
        0 <= i < s.len(),
        s[i].start <= ptr + n < s[i].end,
    ensures
        forall|a: int|
            0 <= a < s.len() && a != i ==> #[trigger] write_bytes(s, ptr, data.subrange(0, n + 1))[a]
                == write_bytes(s, ptr, data.subrange(0, n))[a],
        write_bytes(s, ptr, data.subrange(0, n + 1))[i].data == write_bytes(
            s,
            ptr,
            data.subrange(0, n),
        )[i].data.update(ptr + n - s[i].start, data[n]),
        write_bytes(s, ptr, data.subrange(0, n + 1))[i].start == s[i].start,
        write_bytes(s, ptr, data.subrange(0, n + 1))[i].end == s[i].end,
        write_bytes(s, ptr, data.subrange(0, n + 1))[i].perm == s[i].perm,
{
    let t0 = write_bytes(s, ptr, data.subrange(0, n));
    let t1 = write_bytes(s, ptr, data.subrange(0, n + 1));
    assert forall|a: int| 0 <= a < s.len() && a != i implies #[trigger] t1[a] == t0[a] by {
        if a < i {
            assert(!ranges_intersect(s[a].start, s[a].end, s[i].start, s[i].end));
        } else {
            assert(!ranges_intersect(s[i].start, s[i].end, s[a].start, s[a].end));
        }
        assert(area_wf(s[a]));
        assert(t1[a].data =~= t0[a].data);
    }
    assert(area_wf(s[i]));
    assert(t1[i].data =~= t0[i].data.update(ptr + n - s[i].start, data[n]));
}

/// What was stored can be read back.
pub proof fn lemma_read_back(s: Seq<AreaView>, ptr: int, data: Seq<u8>)
    requires
        areas_wf(s),
        forall|a: int| ptr <= a < ptr + data.len() ==> is_mapped(s, a),
    ensures
        bytes_at(write_bytes(s, ptr, data), ptr, data.len() as int) == data,
{
    let t = write_bytes(s, ptr, data);
    lemma_write_keeps_shape(s, ptr, data);
    assert forall|k: int| 0 <= k < data.len() implies byte_at(t, ptr + k) == data[k] by {
        let a = ptr + k;
        assert(is_mapped(s, a));
        let i = area_index(s, a);
        assert(area_wf(s[i]));
        lemma_area_unique(t, i, a);
    }
    assert(bytes_at(t, ptr, data.len() as int) =~= data);
}

} // verus!
