//! Physical frames: handed out from the usable regions of memory, and kept
//! on a list threaded through the free frames themselves when they come
//! back. Physical memory is a slice of bytes, indexed by physical address.
use vstd::prelude::*;

use crate::bytes::{le64, overwrite, read64, same_word, stored_word, word_bytes, write64, zeros};
use crate::memory::map::PAGE_SIZE;

verus! {

/// A region of physical memory, in frames.
#[derive(Clone, Copy, Debug, PartialEq, Eq, Structural)]
pub struct Region {
    pub start_frame: u64,
    pub end_frame: u64,
    pub usable: bool,
}

/// How many frames of a region may be handed out.
pub open spec fn frames_in(r: Region) -> int {
    if r.usable && r.start_frame < r.end_frame {
        r.end_frame - r.start_frame
    } else {
        0
    }
}

/// The address of usable frame `k`, counted over all regions in order.
pub open spec fn nth_frame(regions: Seq<Region>, k: int) -> Option<u64>
    decreases regions.len(),
{
    if regions.len() == 0 {
        None
    } else {
        let r = regions[0];
        if k < frames_in(r) {
            Some(((r.start_frame + k) * PAGE_SIZE) as u64)
        } else {
            nth_frame(regions.skip(1), k - frames_in(r))
        }
    }
}

/// Whether `f` is the address of a frame of a memory of `len` bytes. The
/// frame at address zero is none: zero ends the free list.
pub open spec fn frame_ok(len: nat, f: u64) -> bool {
    &&& f != 0
    &&& f % 4096 == 0
    &&& f + PAGE_SIZE <= len
}

/// Whether `f` is the address of a frame of a memory of `len` bytes.
pub(crate) fn is_frame(len: usize, f: u64) -> (r: bool)
    ensures
        r == frame_ok(len as nat, f),
{
    f != 0 && f % 4096 == 0 && len as u64 >= PAGE_SIZE && f <= len as u64 - PAGE_SIZE
}

/// Whether every usable region lies within a memory of `len` bytes and
/// leaves out the frame at address zero.
pub open spec fn regions_ok(regions: Seq<Region>, len: nat) -> bool {
    forall|i: int|
        0 <= i < regions.len() && frames_in(#[trigger] regions[i]) > 0 ==> 0 < regions[i].start_frame
            && regions[i].end_frame * PAGE_SIZE <= len
}

/// Whether every usable region lies within a memory of `len` bytes and
/// leaves out the frame at address zero.
pub fn regions_fit(regions: &Vec<Region>, len: usize) -> (r: bool)
    ensures
        r == regions_ok(regions@, len as nat),
{
    let mut i: usize = 0;
    while i < regions.len()
        invariant
            i <= regions@.len(),
            regions_ok(regions@.take(i as int), len as nat),
        decreases regions@.len() - i,
    {
        let region = regions[i];
        let ghost before = regions@.take(i as int);
        let ghost now = regions@.take(i + 1);
        if region.usable && region.start_frame < region.end_frame && (region.start_frame == 0
            || region.end_frame > len as u64 / PAGE_SIZE) {
            proof {
                if regions_ok(regions@, len as nat) {
                    assert(frames_in(regions@[i as int]) > 0);
                    assert(region.end_frame * PAGE_SIZE <= len);
                    assert(region.end_frame <= len as u64 / PAGE_SIZE);
                }
            }
            return false;
        }
        assert(regions_ok(now, len as nat)) by {
            assert forall|j: int|
                0 <= j < now.len() && frames_in(#[trigger] now[j]) > 0 implies 0 < now[j].start_frame
                && now[j].end_frame * PAGE_SIZE <= len by {
                if j < i {
                    assert(before[j] == now[j]);
                } else {
                    assert(region.end_frame * PAGE_SIZE <= len) by {
                        assert(region.end_frame <= len as u64 / PAGE_SIZE);
                    }
                }
            }
        }
        i = i + 1;
    }
    assert(regions@.take(i as int) =~= regions@);
    true
}

/// Whether the free list, from its head on, runs through `free` in memory.
pub open spec fn threaded(mem: Seq<u8>, free: Seq<u64>) -> bool {
    &&& forall|k: int| 0 <= k < free.len() ==> frame_ok(mem.len(), #[trigger] free[k])
    &&& forall|k: int|
        #![trigger free[k]]
        0 <= k < free.len() ==> le64(mem, free[k] as int) == (if k + 1 < free.len() {
            free[k + 1] as int
        } else {
            0
        })
    &&& free.no_duplicates()
}

/// Whether two memories hold the same in frame `f`.
pub open spec fn agree_on(mem: Seq<u8>, now: Seq<u8>, f: u64) -> bool {
    forall|i: int| f <= i < f + 4096 ==> #[trigger] mem[i] == now[i]
}

/// What an allocator holds: the regions, how many of their frames were
/// handed out fresh, the free frames, and how many are in use.
#[verifier::ext_equal]
pub struct FrameModel {
    pub regions: Seq<Region>,
    pub next: int,
    pub free: Seq<u64>,
    pub in_use: int,
}

impl FrameModel {
    /// The frame handed out next.
    pub open spec fn head(self) -> Option<u64> {
        if self.free.len() > 0 {
            Some(self.free[0])
        } else {
            nth_frame(self.regions, self.next)
        }
    }

    /// The allocator after a frame was handed out: one that came back is
    /// used before a fresh one.
    pub open spec fn allocated(self) -> FrameModel {
        if self.free.len() > 0 {
            FrameModel { free: self.free.skip(1), in_use: self.in_use + 1, ..self }
        } else {
            FrameModel { next: self.next + 1, in_use: self.in_use + 1, ..self }
        }
    }

    /// The allocator after frame `f` came back.
    pub open spec fn freed(self, f: u64) -> FrameModel {
        FrameModel {
            free: seq![f] + self.free,
            in_use: if self.in_use > 0 {
                self.in_use - 1
            } else {
                0
            },
            ..self
        }
    }
}

/// Memory after frame `f` was put on a free list that starts with `free`.
pub open spec fn linked_to(mem: Seq<u8>, f: u64, free: Seq<u64>) -> Seq<u8> {
    overwrite(
        mem,
        f as int,
        word_bytes(
            if free.len() > 0 {
                free[0]
            } else {
                0
            },
        ),
    )
}

/// Hands out physical frames.
pub struct BootInfoFrameAllocator {
    memory_map: Vec<Region>,
    next: usize,
    free_list: Option<u64>,
    in_use: usize,
    free_count: usize,
    chain: Ghost<Seq<u64>>,
}

impl View for BootInfoFrameAllocator {
    type V = FrameModel;

    closed spec fn view(&self) -> FrameModel {
        FrameModel {
            regions: self.memory_map@,
            next: self.next as int,
            free: self.chain@,
            in_use: self.in_use as int,
        }
    }
}

impl BootInfoFrameAllocator {
    /// The free list is where the allocator says it is, and the regions are
    /// within memory.
    pub closed spec fn wf(&self, mem: Seq<u8>) -> bool {
        &&& threaded(mem, self.chain@)
        &&& self.free_count == self.chain@.len()
        &&& self.free_list == (if self.chain@.len() > 0 {
            Some(self.chain@[0])
        } else {
            None
        })
        &&& regions_ok(self.memory_map@, mem.len())
    }

    /// An allocator that has handed out nothing yet.
    pub fn init(memory_map: Vec<Region>, mem: &[u8]) -> (a: BootInfoFrameAllocator)
        requires
            regions_ok(memory_map@, mem@.len()),
        ensures
            a.wf(mem@),
            a@ == (FrameModel {
                regions: memory_map@,
                next: 0,
                free: Seq::empty(),
                in_use: 0,
            }),
    {
        BootInfoFrameAllocator {
            memory_map,
            next: 0,
            free_list: None,
            in_use: 0,
            free_count: 0,
            chain: Ghost(Seq::empty()),
        }
    }

    /// What holds of the free list.
    pub proof fn free_frames(&self, mem: Seq<u8>)
        requires
            self.wf(mem),
        ensures
            threaded(mem, self@.free),
            regions_ok(self@.regions, mem.len()),
            0 <= self@.next,
            0 <= self@.in_use,
    {
    }

    /// What happens to memory outside the free frames does not concern the
    /// free list.
    pub proof fn wf_elsewhere(&self, mem: Seq<u8>, now: Seq<u8>)
        requires
            self.wf(mem),
            now.len() == mem.len(),
            forall|k: int| 0 <= k < self@.free.len() ==> agree_on(mem, now, #[trigger] self@.free[k]),
        ensures
            self.wf(now),
    {
        let free = self.chain@;
        assert forall|k: int|
            #![trigger free[k]]
            0 <= k < free.len() implies le64(now, free[k] as int) == le64(mem, free[k] as int) by {
            assert(agree_on(mem, now, self@.free[k]));
            same_word(now, mem, free[k] as int);
        }
    }

    /// The address of usable frame `k`.
    fn usable_frame(&self, k: usize, Ghost(mem): Ghost<Seq<u8>>) -> (r: Option<u64>)
        requires
            regions_ok(self.memory_map@, mem.len()),
            mem.len() <= u64::MAX,
        ensures
            r == nth_frame(self.memory_map@, k as int),
            r matches Some(f) ==> frame_ok(mem.len(), f),
    {
        let ghost regions = self.memory_map@;
        let mut left: u64 = k as u64;
        let mut i: usize = 0;
        assert(regions.skip(0) =~= regions);
        while i < self.memory_map.len()
            invariant
                i <= regions.len(),
                regions == self.memory_map@,
                regions_ok(regions, mem.len()),
                mem.len() <= u64::MAX,
                nth_frame(regions, k as int) == nth_frame(regions.skip(i as int), left as int),
            decreases regions.len() - i,
        {
            let r = self.memory_map[i];
            assert(regions.skip(i as int)[0] == r);
            assert(regions.skip(i as int).skip(1) =~= regions.skip(i + 1));
            assert(regions[i as int] == r);
            if r.usable && r.start_frame < r.end_frame {
                let size: u64 = r.end_frame - r.start_frame;
                if left < size {
                    assert((r.start_frame + left) * PAGE_SIZE + PAGE_SIZE <= r.end_frame * PAGE_SIZE)
                        by (nonlinear_arith)
                        requires
                            r.start_frame + left < r.end_frame,
                            PAGE_SIZE == 4096,
                    ;
                    assert(0 < (r.start_frame + left) * PAGE_SIZE);
                    return Some((r.start_frame + left) * PAGE_SIZE);
                }
                left = left - size;
            }
            i = i + 1;
        }
        assert(regions.skip(i as int) =~= Seq::empty());
        None
    }

    /// Hand out a frame, every byte of it zero: one that came back, or else
    /// a fresh one. `None` if there is neither.
    pub fn allocate_frame(&mut self, mem: &mut [u8]) -> (r: Option<u64>)
        requires
            old(self).wf(old(mem)@),
            old(self)@.in_use < usize::MAX,
            old(self)@.next < usize::MAX,
        ensures
            final(self).wf(final(mem)@),
            r == old(self)@.head(),
            match r {
                Some(f) => {
                    &&& frame_ok(old(mem)@.len(), f)
                    &&& final(self)@ == old(self)@.allocated()
                    &&& final(mem)@ == overwrite(old(mem)@, f as int, zeros(4096))
                },
                None => final(self)@ == old(self)@ && final(mem)@ == old(mem)@,
            },
    {
        let len: usize = mem.len();
        let ghost before = mem@;
        let ghost chain = self.chain@;
        match self.free_list {
            Some(frame) => {
                assert(chain.len() > 0 && chain[0] == frame);
                let link: u64 = read64(mem, frame as usize);
                zero_frame(mem, frame);
                self.free_list = if link == 0 {
                    None
                } else {
                    Some(link)
                };
                self.free_count = self.free_count - 1;
                self.in_use = self.in_use + 1;
                proof {
                    pop_keeps_thread(before, chain);
                    self.chain = Ghost(chain.skip(1));
                    if chain.len() > 1 {
                        assert(frame_ok(before.len(), chain[1]));
                    }
                }
                Some(frame)
            },
            None => {
                let frame = self.usable_frame(self.next, Ghost(before));
                match frame {
                    Some(f) => {
                        zero_frame(mem, f);
                        self.next = self.next + 1;
                        self.in_use = self.in_use + 1;
                    },
                    None => {},
                }
                frame
            },
        }
    }

    /// Take frame `frame` back; it is the next to be handed out.
    pub fn deallocate_frame(&mut self, mem: &mut [u8], frame: u64)
        requires
            old(self).wf(old(mem)@),
            frame_ok(old(mem)@.len(), frame),
            !old(self)@.free.contains(frame),
        ensures
            final(self).wf(final(mem)@),
            final(self)@ == old(self)@.freed(frame),
            final(mem)@ == linked_to(old(mem)@, frame, old(self)@.free),
    {
        let len: usize = mem.len();
        let ghost before = mem@;
        let ghost chain = self.chain@;
        let link: u64 = match self.free_list {
            Some(f) => f,
            None => 0,
        };
        write64(mem, frame as usize, link);
        self.free_list = Some(frame);
        proof {
            frames_fit(before, chain);
        }
        self.free_count = self.free_count + 1;
        self.in_use = if self.in_use > 0 {
            self.in_use - 1
        } else {
            0
        };
        proof {
            push_keeps_thread(before, chain, frame);
            self.chain = Ghost(seq![frame] + chain);
        }
    }

    /// Whether another frame can be counted.
    pub fn can_count(&self) -> (r: bool)
        ensures
            r == (self@.in_use < usize::MAX && self@.next < usize::MAX),
    {
        self.in_use < usize::MAX && self.next < usize::MAX
    }

    /// Whether `f` is a frame that came back.
    pub fn is_free(&self, mem: &[u8], f: u64) -> (r: bool)
        requires
            self.wf(mem@),
        ensures
            r == self@.free.contains(f),
    {
        let _len: usize = mem.len();
        let ghost chain = self.chain@;
        let mut at: u64 = match self.free_list {
            Some(first) => first,
            None => 0,
        };
        let mut k: usize = 0;
        while k < self.free_count
            invariant
                k <= self.free_count == chain.len(),
                chain == self.chain@,
                threaded(mem@, chain),
                k < chain.len() ==> at == chain[k as int],
                forall|j: int| 0 <= j < k ==> chain[j] != f,
                mem@.len() <= usize::MAX,
            decreases self.free_count - k,
        {
            if at == f {
                assert(chain.contains(f));
                return true;
            }
            at = read64(mem, at as usize);
            k = k + 1;
        }
        false
    }

    /// For each frame of memory, by number, whether it is one that came
    /// back.
    pub fn free_map(&self, mem: &[u8]) -> (map: Vec<bool>)
        requires
            self.wf(mem@),
        ensures
            map@.len() == mem@.len() / 4096,
            forall|f: u64| #[trigger]
                frame_ok(mem@.len(), f) ==> map@[f as int / 4096] == self@.free.contains(f),
    {
        let len: usize = mem.len();
        let ghost chain = self.chain@;
        let mut map: Vec<bool> = Vec::new();
        while map.len() < len / 4096
            invariant
                map@.len() <= len / 4096,
                forall|j: int| 0 <= j < map@.len() ==> !(#[trigger] map@[j]),
            decreases len / 4096 - map@.len(),
        {
            map.push(false);
        }
        let mut at: u64 = match self.free_list {
            Some(first) => first,
            None => 0,
        };
        let mut k: usize = 0;
        assert(chain.take(0) =~= Seq::empty());
        while k < self.free_count
            invariant
                k <= self.free_count == chain.len(),
                chain == self.chain@,
                len == mem@.len(),
                threaded(mem@, chain),
                map@.len() == len / 4096,
                k < chain.len() ==> at == chain[k as int],
                forall|f: u64| #[trigger]
                    frame_ok(mem@.len(), f) ==> map@[f as int / 4096] == chain.take(
                        k as int,
                    ).contains(f),
            decreases self.free_count - k,
        {
            let ghost was = map@;
            assert(frame_ok(mem@.len(), chain[k as int]));
            map.set((at / 4096) as usize, true);
            proof {
                let before = chain.take(k as int);
                let now = chain.take(k + 1);
                assert(now =~= before.push(at));
                assert forall|f: u64| #[trigger] frame_ok(mem@.len(), f) implies map@[f as int
                    / 4096] == now.contains(f) by {
                    assert(was[f as int / 4096] == before.contains(f));
                    if f == at {
                        assert(now[k as int] == f);
                    } else {
                        assert(f as int / 4096 != at as int / 4096);
                        if before.contains(f) {
                            let j = choose|j: int| 0 <= j < before.len() && before[j] == f;
                            assert(now[j] == f);
                        }
                        if now.contains(f) {
                            let j = choose|j: int| 0 <= j < now.len() && now[j] == f;
                            assert(before[j] == f);
                        }
                    }
                }
            }
            at = read64(mem, at as usize);
            k = k + 1;
        }
        assert(chain.take(k as int) =~= chain);
        map
    }

    /// Whether `f` is neither free nor the next frame to be handed out.
    pub fn is_held(&self, mem: &[u8], f: u64) -> (r: bool)
        requires
            self.wf(mem@),
        ensures
            r == (!self@.free.contains(f) && self@.head() != Some(f)),
    {
        let _len: usize = mem.len();
        if self.free_count == 0 {
            return self.usable_frame(self.next, Ghost(mem@)) != Some(f);
        }
        assert(self.chain@.contains(self.chain@[0]));
        !self.is_free(mem, f)
    }

    /// How many frames are in use, and how many are free.
    pub fn frame_stats(&self, mem: &[u8]) -> (r: (usize, usize))
        requires
            self.wf(mem@),
        ensures
            r.0 == self@.in_use,
            r.1 == self@.free.len(),
    {
        (self.in_use, self.free_count)
    }
}

/// Different frames have no byte in common.
pub proof fn frames_apart(a: u64, b: u64)
    requires
        a % 4096 == 0,
        b % 4096 == 0,
        a != b,
    ensures
        a + 4096 <= b || b + 4096 <= a,
{
}

/// Taking the first frame off the free list and clearing it leaves the rest
/// of the list in place.
proof fn pop_keeps_thread(mem: Seq<u8>, free: Seq<u64>)
    requires
        threaded(mem, free),
        free.len() > 0,
    ensures
        threaded(overwrite(mem, free[0] as int, zeros(4096)), free.skip(1)),
{
    let after = overwrite(mem, free[0] as int, zeros(4096));
    let rest = free.skip(1);
    assert forall|k: int|
        #![trigger rest[k]]
        0 <= k < rest.len() implies frame_ok(after.len(), rest[k]) && le64(after, rest[k] as int) == (
    if k + 1 < rest.len() {
        rest[k + 1] as int
    } else {
        0
    }) by {
        assert(rest[k] == free[k + 1]);
        assert(free[0] != free[k + 1]);
        frames_apart(free[0], free[k + 1]);
        same_word(after, mem, rest[k] as int);
    }
}

/// A word written at the start of one frame leaves that of another alone.
proof fn word_elsewhere(mem: Seq<u8>, f: u64, g: u64, w: u64)
    requires
        frame_ok(mem.len(), f),
        frame_ok(mem.len(), g),
        f != g,
    ensures
        le64(overwrite(mem, f as int, word_bytes(w)), g as int) == le64(mem, g as int),
{
    frames_apart(f, g);
    same_word(overwrite(mem, f as int, word_bytes(w)), mem, g as int);
}

/// Putting a frame at the front of the free list leaves the rest of the
/// list in place.
#[verifier::rlimit(50)]
#[verifier::spinoff_prover]
proof fn push_keeps_thread(mem: Seq<u8>, free: Seq<u64>, f: u64)
    requires
        threaded(mem, free),
        frame_ok(mem.len(), f),
        !free.contains(f),
    ensures
        threaded(linked_to(mem, f, free), seq![f] + free),
{
    let after = linked_to(mem, f, free);
    let now = seq![f] + free;
    let link = if free.len() > 0 { free[0] } else { 0 };
    stored_word(mem, f as int, link);
    assert forall|k: int|
        #![trigger now[k]]
        0 <= k < now.len() implies frame_ok(after.len(), now[k]) && le64(after, now[k] as int) == (
    if k + 1 < now.len() {
        now[k + 1] as int
    } else {
        0
    }) by {
        if k > 0 {
            assert(now[k] == free[k - 1]);
            assert(free[k - 1] != f);
            word_elsewhere(mem, f, free[k - 1], link);
            if k + 1 < now.len() {
                assert(now[k + 1] == free[k]);
            }
        } else {
            if now.len() > 1 {
                assert(now[1] == free[0]);
            }
        }
    }
    assert forall|a: int, b: int| 0 <= a < b < now.len() implies now[a] != now[b] by {
        assert(now[b] == free[b - 1]);
        if a > 0 {
            assert(now[a] == free[a - 1]);
        }
    }
}

/// Distinct frames of a memory are fewer than its bytes.
pub proof fn frames_fit(mem: Seq<u8>, frames: Seq<u64>)
    requires
        forall|k: int| 0 <= k < frames.len() ==> frame_ok(mem.len(), #[trigger] frames[k]),
        frames.no_duplicates(),
        mem.len() <= usize::MAX,
    ensures
        frames.len() < usize::MAX,
{
    let numbers = Seq::new(frames.len(), |k: int| frames[k] as int);
    // Address zero is no frame.
    let bound = vstd::set_lib::set_int_range(1, mem.len() as int);
    assert(numbers.no_duplicates());
    numbers.unique_seq_to_set();
    if mem.len() > 0 {
        vstd::set_lib::lemma_int_range(1, mem.len() as int);
        assert(numbers.to_set().subset_of(bound)) by {
            assert forall|x: int| numbers.to_set().contains(x) implies bound.contains(x) by {
                let k = choose|k: int| 0 <= k < numbers.len() && numbers[k] == x;
                assert(frame_ok(mem.len(), frames[k]));
            }
        }
        vstd::set_lib::lemma_len_subset(numbers.to_set(), bound);
    } else if frames.len() > 0 {
        assert(frame_ok(mem.len(), frames[0]));
    }
}

/// Make every byte of frame `f` zero.
pub fn zero_frame(mem: &mut [u8], f: u64)
    requires
        frame_ok(old(mem)@.len(), f),
    ensures
        final(mem)@ == overwrite(old(mem)@, f as int, zeros(4096)),
{
    let _len: usize = mem.len();
    let ghost before = mem@;
    let start: usize = f as usize;
    let mut k: usize = 0;
    while k < 4096
        invariant
            k <= 4096,
            start == f,
            mem@.len() == before.len(),
            start + 4096 <= before.len(),
            before.len() <= usize::MAX,
            forall|i: int|
                0 <= i < mem@.len() ==> #[trigger] mem@[i] == (if start <= i < start + k {
                    0
                } else {
                    before[i]
                }),
        decreases 4096 - k,
    {
        mem[start + k] = 0;
        k = k + 1;
    }
    assert(mem@ =~= overwrite(before, f as int, zeros(4096)));
}

/// A frame that came back is the next one handed out, and then the
/// allocator holds what it held before.
pub proof fn freed_frame_is_reused(a: FrameModel, f: u64)
    requires
        a.in_use > 0,
    ensures
        a.freed(f).head() == Some(f),
        a.freed(f).allocated() == a,
{
    assert(a.freed(f).allocated().free =~= a.free);
}

/// A workload that gives back as many frames as it takes takes no fresh
/// ones: while a frame is free, none is taken from the regions.
pub proof fn free_frames_come_first(a: FrameModel)
    requires
        a.free.len() > 0,
    ensures
        a.allocated().next == a.next,
        a.allocated().free.len() == a.free.len() - 1,
        a.allocated().in_use + a.allocated().free.len() == a.in_use + a.free.len(),
{
}

/// Whether no two usable regions have a frame in common.
pub open spec fn regions_apart(regions: Seq<Region>) -> bool {
    forall|i: int, j: int|
        #![trigger regions[i], regions[j]]
        0 <= i < j < regions.len() && frames_in(regions[i]) > 0 && frames_in(regions[j]) > 0
            ==> regions[i].end_frame <= regions[j].start_frame || regions[j].end_frame
            <= regions[i].start_frame
}

/// A usable frame lies in a usable region.
pub proof fn frame_in_region(regions: Seq<Region>, k: int, len: nat) -> (i: int)
    requires
        0 <= k,
        nth_frame(regions, k) is Some,
        regions_ok(regions, len),
        len <= u64::MAX,
    ensures
        0 <= i < regions.len(),
        frames_in(regions[i]) > 0,
        regions[i].start_frame * PAGE_SIZE <= nth_frame(regions, k)->0 < regions[i].end_frame
            * PAGE_SIZE,
    decreases regions.len(),
{
    let r = regions[0];
    if k < frames_in(r) {
        assert(regions[0].end_frame * PAGE_SIZE <= len);
        assert((r.start_frame + k) * PAGE_SIZE <= u64::MAX);
        0
    } else {
        let rest = regions.skip(1);
        assert forall|i: int|
            0 <= i < rest.len() && frames_in(#[trigger] rest[i]) > 0 implies 0 < rest[i].start_frame
            && rest[i].end_frame * PAGE_SIZE <= len by {
            assert(rest[i] == regions[i + 1]);
        }
        let i = frame_in_region(rest, k - frames_in(r), len);
        assert(rest[i] == regions[i + 1]);
        i + 1
    }
}

/// No usable frame is handed out fresh twice, as long as the regions do not
/// overlap.
pub proof fn fresh_frames_differ(regions: Seq<Region>, a: int, b: int, len: nat)
    requires
        0 <= a < b,
        nth_frame(regions, a) is Some,
        nth_frame(regions, b) is Some,
        regions_ok(regions, len),
        regions_apart(regions),
        len <= u64::MAX,
    ensures
        nth_frame(regions, a) != nth_frame(regions, b),
    decreases regions.len(),
{
    let r = regions[0];
    let rest = regions.skip(1);
    assert forall|i: int|
        0 <= i < rest.len() && frames_in(#[trigger] rest[i]) > 0 implies 0 < rest[i].start_frame
        && rest[i].end_frame * PAGE_SIZE <= len by {
        assert(rest[i] == regions[i + 1]);
    }
    assert forall|i: int, j: int|
        #![trigger rest[i], rest[j]]
        0 <= i < j < rest.len() && frames_in(rest[i]) > 0 && frames_in(rest[j]) > 0 implies rest[i].end_frame
        <= rest[j].start_frame || rest[j].end_frame <= rest[i].start_frame by {
        assert(rest[i] == regions[i + 1]);
        assert(rest[j] == regions[j + 1]);
    }
    if b < frames_in(r) {
        assert(regions[0].end_frame * PAGE_SIZE <= len);
        assert((r.start_frame + b) * PAGE_SIZE <= u64::MAX);
    } else if a < frames_in(r) {
        assert(regions[0].end_frame * PAGE_SIZE <= len);
        assert((r.start_frame + a) * PAGE_SIZE <= u64::MAX);
        let j = frame_in_region(rest, b - frames_in(r), len);
        assert(rest[j] == regions[j + 1]);
        assert(regions[0].end_frame <= regions[j + 1].start_frame || regions[j + 1].end_frame
            <= regions[0].start_frame);
    } else {
        fresh_frames_differ(rest, a - frames_in(r), b - frames_in(r), len);
    }
}

} // verus!
