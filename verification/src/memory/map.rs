//! The memory map of a process: which pages of its address space are its
//! own.
use vstd::prelude::*;

verus! {

/// A run of `pages` pages that starts at virtual address `base`.
#[derive(Clone, Copy, Debug, PartialEq, Eq, Structural)]
pub struct Segment {
    pub base: u64,
    pub pages: usize,
}

/// How many segments one map holds: one more than the loadable segments a
/// program image may have, for its stack.
pub const MAX_SEGMENTS: usize = 17;

/// Size of a page in bytes.
pub const PAGE_SIZE: u64 = 4096;

/// Which pages of an address space belong to the process: everything a fork
/// has to duplicate and an exec throws away, as opposed to the kernel
/// mappings that every address space shares.
#[derive(Clone, Copy)]
pub struct MemMap {
    segments: [Segment; MAX_SEGMENTS],
    len: usize,
}

impl View for MemMap {
    type V = Seq<Segment>;

    closed spec fn view(&self) -> Seq<Segment> {
        self.segments@.take(self.len as int)
    }
}

/// The number of pages of all segments together.
pub open spec fn page_count(segments: Seq<Segment>) -> nat
    decreases segments.len(),
{
    if segments.len() == 0 {
        0
    } else {
        page_count(segments.drop_last()) + segments.last().pages as nat
    }
}

/// The addresses of the first `n` pages of a segment.
pub open spec fn segment_pages(s: Segment, n: nat) -> Seq<u64> {
    Seq::new(n, |i: int| (s.base + i * PAGE_SIZE) as u64)
}

/// The page addresses of all segments, one segment after another.
pub open spec fn page_list(segments: Seq<Segment>) -> Seq<u64>
    decreases segments.len(),
{
    if segments.len() == 0 {
        Seq::empty()
    } else {
        page_list(segments.drop_last()) + segment_pages(
            segments.last(),
            segments.last().pages as nat,
        )
    }
}

/// The index of the first segment at `base`, or the number of segments.
pub open spec fn segment_at(segments: Seq<Segment>, base: u64) -> int
    decreases segments.len(),
{
    if segments.len() == 0 {
        0
    } else {
        let i = segment_at(segments.drop_last(), base);
        if i < segments.len() - 1 || segments.last().base == base {
            i
        } else {
            segments.len() as int
        }
    }
}

/// `segments` with the segment at `base` made `pages` pages long, or a new
/// one of that length added at the end.
pub open spec fn with_segment(segments: Seq<Segment>, base: u64, pages: usize) -> Seq<Segment> {
    let i = segment_at(segments, base);
    if i < segments.len() {
        segments.update(i, Segment { base, pages })
    } else {
        segments.push(Segment { base, pages })
    }
}

impl MemMap {
    /// The map holds no more segments than it has room for.
    pub closed spec fn wf(&self) -> bool {
        self.len <= MAX_SEGMENTS
    }

    /// The map of a process with no memory of its own.
    pub closed spec fn none() -> MemMap {
        MemMap {
            segments: [
                Segment { base: 0, pages: 0 },
                Segment { base: 0, pages: 0 },
                Segment { base: 0, pages: 0 },
                Segment { base: 0, pages: 0 },
                Segment { base: 0, pages: 0 },
                Segment { base: 0, pages: 0 },
                Segment { base: 0, pages: 0 },
                Segment { base: 0, pages: 0 },
                Segment { base: 0, pages: 0 },
                Segment { base: 0, pages: 0 },
                Segment { base: 0, pages: 0 },
                Segment { base: 0, pages: 0 },
                Segment { base: 0, pages: 0 },
                Segment { base: 0, pages: 0 },
                Segment { base: 0, pages: 0 },
                Segment { base: 0, pages: 0 },
                Segment { base: 0, pages: 0 },
            ],
            len: 0,
        }
    }

    /// The map of a process with no memory of its own: every kernel task.
    pub fn empty() -> (m: MemMap)
        ensures
            m == MemMap::none(),
            m.wf(),
            m@ == Seq::<Segment>::empty(),
    {
        let segments = [Segment { base: 0, pages: 0 };MAX_SEGMENTS];
        let m = MemMap { segments, len: 0 };
        assert(m.segments =~= MemMap::none().segments);
        assert(m@ =~= Seq::<Segment>::empty());
        m
    }

    /// The empty map is well formed and has no segment.
    pub proof fn none_is_empty()
        ensures
            MemMap::none().wf(),
            MemMap::none()@ == Seq::<Segment>::empty(),
    {
        assert(MemMap::none()@ =~= Seq::<Segment>::empty());
    }

    /// Record one more run of `pages` pages at `base`; `false`, and nothing
    /// recorded, if the map is full.
    pub fn push(&mut self, base: u64, pages: usize) -> (done: bool)
        requires
            old(self).wf(),
        ensures
            final(self).wf(),
            done == (old(self)@.len() < MAX_SEGMENTS),
            final(self)@ == (if done {
                old(self)@.push(Segment { base, pages })
            } else {
                old(self)@
            }),
    {
        if self.len >= MAX_SEGMENTS {
            return false;
        }
        let ghost before = self@;
        self.segments[self.len] = Segment { base, pages };
        self.len = self.len + 1;
        assert(self@ =~= before.push(Segment { base, pages }));
        true
    }

    /// Whether the map has no segment.
    pub fn is_empty(&self) -> (r: bool)
        requires
            self.wf(),
        ensures
            r == (self@.len() == 0),
    {
        self.len == 0
    }

    /// The segments, in the order they were recorded.
    pub fn segments(&self) -> (r: Vec<Segment>)
        requires
            self.wf(),
        ensures
            r@ == self@,
    {
        let mut r: Vec<Segment> = Vec::new();
        let mut i: usize = 0;
        while i < self.len
            invariant
                self.wf(),
                i <= self.len,
                r@ == self.segments@.take(i as int),
            decreases self.len - i,
        {
            r.push(self.segments[i]);
            i = i + 1;
            assert(self.segments@.take(i as int) =~= self.segments@.take(i - 1).push(
                self.segments@[i - 1],
            ));
        }
        r
    }

    /// How many pages the map covers.
    pub fn total_pages(&self) -> (r: usize)
        requires
            self.wf(),
            page_count(self@) <= usize::MAX,
        ensures
            r == page_count(self@),
    {
        let mut r: usize = 0;
        let mut i: usize = 0;
        while i < self.len
            invariant
                self.wf(),
                i <= self.len,
                r == page_count(self@.take(i as int)),
                page_count(self@) <= usize::MAX,
            decreases self.len - i,
        {
            assert(self@.take(i + 1).drop_last() =~= self@.take(i as int));
            assert(self@.take(i + 1).last() == self.segments@[i as int]);
            proof {
                page_count_grows(self@, i + 1);
            }
            r = r + self.segments[i].pages;
            i = i + 1;
        }
        assert(self@.take(i as int) =~= self@);
        r
    }

    /// The address of every page the map covers, one segment after another.
    pub fn pages(&self) -> (r: Vec<u64>)
        requires
            self.wf(),
            forall|k: int|
                0 <= k < self@.len() ==> (#[trigger] self@[k]).base + self@[k].pages * PAGE_SIZE
                    <= u64::MAX,
        ensures
            r@ == page_list(self@),
    {
        let mut r: Vec<u64> = Vec::new();
        let mut i: usize = 0;
        while i < self.len
            invariant
                self.wf(),
                i <= self.len,
                r@ == page_list(self@.take(i as int)),
                forall|k: int|
                    0 <= k < self@.len() ==> (#[trigger] self@[k]).base + self@[k].pages * PAGE_SIZE
                        <= u64::MAX,
            decreases self.len - i,
        {
            let s = self.segments[i];
            assert(self@[i as int] == s);
            let ghost before = r@;
            let mut n: usize = 0;
            while n < s.pages
                invariant
                    n <= s.pages,
                    s.base + s.pages * PAGE_SIZE <= u64::MAX,
                    r@ == before + segment_pages(s, n as nat),
                decreases s.pages - n,
            {
                assert(n * PAGE_SIZE <= s.pages * PAGE_SIZE) by (nonlinear_arith)
                    requires
                        n <= s.pages,
                ;
                r.push(s.base + n as u64 * PAGE_SIZE);
                n = n + 1;
                assert(segment_pages(s, n as nat) =~= segment_pages(s, (n - 1) as nat).push(
                    (s.base + (n - 1) * PAGE_SIZE) as u64,
                ));
            }
            assert(self@.take(i + 1).drop_last() =~= self@.take(i as int));
            assert(self@.take(i + 1).last() == s);
            i = i + 1;
        }
        assert(self@.take(i as int) =~= self@);
        r
    }

    /// Whether `set_segment` at `base` will find room: a segment that is
    /// already there, or a free entry.
    pub fn can_set_segment(&self, base: u64) -> (r: bool)
        requires
            self.wf(),
        ensures
            r == (segment_at(self@, base) < self@.len() || self@.len() < MAX_SEGMENTS),
    {
        self.find(base) < self.len || self.len < MAX_SEGMENTS
    }

    /// Make the segment at `base` `pages` pages long, adding it if the map
    /// has none there; `false`, and nothing changed, if there is no room.
    pub fn set_segment(&mut self, base: u64, pages: usize) -> (done: bool)
        requires
            old(self).wf(),
        ensures
            final(self).wf(),
            done == (segment_at(old(self)@, base) < old(self)@.len() || old(self)@.len()
                < MAX_SEGMENTS),
            final(self)@ == (if done {
                with_segment(old(self)@, base, pages)
            } else {
                old(self)@
            }),
    {
        let i: usize = self.find(base);
        if i < self.len {
            let ghost before = self@;
            self.segments[i] = Segment { base, pages };
            assert(self@ =~= before.update(i as int, Segment { base, pages }));
            true
        } else {
            self.push(base, pages)
        }
    }

    fn find(&self, base: u64) -> (r: usize)
        requires
            self.wf(),
        ensures
            r == segment_at(self@, base),
            r <= self.len,
    {
        let mut i: usize = 0;
        proof {
            segment_at_bound(self@.take(0), base);
        }
        while i < self.len && self.segments[i].base != base
            invariant
                self.wf(),
                i <= self.len,
                segment_at(self@.take(i as int), base) == i,
            decreases self.len - i,
        {
            assert(self@.take(i + 1).drop_last() =~= self@.take(i as int));
            assert(self@.take(i + 1).last() == self.segments@[i as int]);
            i = i + 1;
        }
        if i < self.len {
            assert(self@.take(i + 1).drop_last() =~= self@.take(i as int));
            assert(self@.take(i + 1).last() == self.segments@[i as int]);
            proof {
                segment_at_stays(self@, base, i + 1);
            }
        } else {
            assert(self@.take(i as int) =~= self@);
        }
        i
    }
}

proof fn segment_at_bound(s: Seq<Segment>, base: u64)
    ensures
        0 <= segment_at(s, base) <= s.len(),
    decreases s.len(),
{
    if s.len() > 0 {
        segment_at_bound(s.drop_last(), base);
    }
}

/// A segment found among the first `n` is the one found among all.
proof fn segment_at_stays(s: Seq<Segment>, base: u64, n: int)
    requires
        0 <= n <= s.len(),
        segment_at(s.take(n), base) < n,
    ensures
        segment_at(s, base) == segment_at(s.take(n), base),
    decreases s.len(),
{
    if n == s.len() {
        assert(s.take(n) =~= s);
    } else {
        assert(s.drop_last().take(n) =~= s.take(n));
        segment_at_stays(s.drop_last(), base, n);
    }
}

/// The first `n` segments cover no more pages than all of them.
proof fn page_count_grows(s: Seq<Segment>, n: int)
    requires
        0 <= n <= s.len(),
    ensures
        page_count(s.take(n)) <= page_count(s),
    decreases s.len(),
{
    if n == s.len() {
        assert(s.take(n) =~= s);
    } else {
        assert(s.drop_last().take(n) =~= s.take(n));
        page_count_grows(s.drop_last(), n);
    }
}

/// The list of pages has as many entries as the map covers pages.
pub proof fn page_list_len(s: Seq<Segment>)
    ensures
        page_list(s).len() == page_count(s),
    decreases s.len(),
{
    if s.len() > 0 {
        page_list_len(s.drop_last());
    }
}

} // verus!
