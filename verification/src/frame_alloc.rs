//! Physical-frame allocation over the bootloader's memory inventory.
//!
//! The boot-time collaborator hands over an immutable list of region
//! descriptors: contiguous physical ranges, each classified usable or not.
//! Conceptually the usable regions expand into one ordered sequence of
//! frame-sized steps, and a private cursor indexes into it; a frame is handed
//! out at most once and none is ever taken back.

use vstd::prelude::*;

verus! {

use vstd::arithmetic::div_mod::lemma_fundamental_div_mod;

use crate::addr::aligned;

/// One entry of the bootloader-supplied memory inventory: a contiguous
/// physical range and its usability classification.
#[derive(Clone, Copy, PartialEq, Eq, Structural, Debug)]
pub struct RegionDescriptor {
    pub base: u64,
    pub len: u64,
    pub usable: bool,
}

impl RegionDescriptor {
    /// A region sits on frame boundaries and stays within the address space.
    pub open spec fn wf(self) -> bool {
        &&& aligned(self.base)
        &&& aligned(self.len)
        &&& self.base + self.len <= u64::MAX
    }
}

/// A valid inventory: every region well-formed, and the regions ordered by
/// address and pairwise disjoint, as a memory map handed over by the
/// bootloader is.
pub open spec fn regions_wf(rs: Seq<RegionDescriptor>) -> bool {
    &&& forall|i: int| 0 <= i < rs.len() ==> (#[trigger] rs[i]).wf()
    &&& forall|i: int, j: int|
        0 <= i < j < rs.len() ==> (#[trigger] rs[i]).base + rs[i].len <= (#[trigger] rs[j]).base
}

/// The frames one region expands into: frame-sized, frame-aligned steps
/// across its span.
pub open spec fn region_frames(r: RegionDescriptor) -> Seq<u64> {
    Seq::new((r.len / 4096) as nat, |k: int| (r.base + k * 4096) as u64)
}

/// The ordered sequence of all usable frames the inventory yields: each
/// usable region's frames, in region order.
pub open spec fn usable_frames(rs: Seq<RegionDescriptor>) -> Seq<u64>
    decreases rs.len(),
{
    if rs.len() == 0 {
        Seq::empty()
    } else {
        usable_frames(rs.drop_last()) + (if rs.last().usable {
            region_frames(rs.last())
        } else {
            Seq::empty()
        })
    }
}

/// Splitting the inventory splits its frame sequence.
pub proof fn lemma_usable_frames_concat(a: Seq<RegionDescriptor>, b: Seq<RegionDescriptor>)
    ensures
        usable_frames(a + b) == usable_frames(a) + usable_frames(b),
    decreases b.len(),
{
    if b.len() == 0 {
        assert(a + b =~= a);
        assert(usable_frames(a) + usable_frames(b) =~= usable_frames(a));
    } else {
        assert((a + b).drop_last() =~= a + b.drop_last());
        assert((a + b).last() == b.last());
        lemma_usable_frames_concat(a, b.drop_last());
        assert(usable_frames(a) + usable_frames(b.drop_last()) + (if b.last().usable {
            region_frames(b.last())
        } else {
            Seq::empty()
        }) =~= usable_frames(a) + usable_frames(b));
    }
}

/// Every frame of a well-formed region lies strictly below the region's end.
pub proof fn lemma_region_frames_span(r: RegionDescriptor)
    requires
        r.wf(),
    ensures
        forall|k: int|
            0 <= k < region_frames(r).len() ==> r.base <= #[trigger] region_frames(r)[k]
                && region_frames(r)[k] + 4096 <= r.base + r.len,
        forall|k: int| 0 <= k < region_frames(r).len() ==> aligned(#[trigger] region_frames(r)[k]),
{
    lemma_fundamental_div_mod(r.len as int, 4096);
    assert forall|k: int| 0 <= k < region_frames(r).len() implies r.base
        <= #[trigger] region_frames(r)[k] && region_frames(r)[k] + 4096 <= r.base + r.len
        && aligned(region_frames(r)[k]) by {
        assert(k * 4096 <= (r.len / 4096 - 1) * 4096);
        assert((r.base + k * 4096) % 4096 == 0) by (nonlinear_arith)
            requires
                r.base % 4096 == 0,
                k >= 0,
        ;
    }
}

/// All frames of an inventory whose regions end at or below a bound lie
/// strictly below that bound.
pub proof fn lemma_usable_frames_below(rs: Seq<RegionDescriptor>, bound: u64)
    requires
        forall|i: int| 0 <= i < rs.len() ==> (#[trigger] rs[i]).wf(),
        forall|i: int| 0 <= i < rs.len() ==> (#[trigger] rs[i]).base + rs[i].len <= bound,
    ensures
        forall|k: int| 0 <= k < usable_frames(rs).len() ==> #[trigger] usable_frames(rs)[k] < bound,
    decreases rs.len(),
{
    if rs.len() > 0 {
        let pre = usable_frames(rs.drop_last());
        let part = if rs.last().usable {
            region_frames(rs.last())
        } else {
            Seq::<u64>::empty()
        };
        lemma_usable_frames_below(rs.drop_last(), bound);
        lemma_region_frames_span(rs.last());
        assert forall|k: int| 0 <= k < usable_frames(rs).len() implies #[trigger] usable_frames(
            rs,
        )[k] < bound by {
            assert(usable_frames(rs) == pre + part);
            if k < pre.len() {
                assert(usable_frames(rs)[k] == pre[k]);
            } else {
                assert(usable_frames(rs)[k] == part[k - pre.len()]);
            }
        }
    }
}

/// The frame sequence of a valid inventory is strictly increasing; in
/// particular no frame appears twice, so distinct successful allocations can
/// never hand out equal frames.
pub proof fn lemma_usable_frames_increasing(rs: Seq<RegionDescriptor>)
    requires
        regions_wf(rs),
    ensures
        forall|i: int, j: int|
            0 <= i < j < usable_frames(rs).len() ==> usable_frames(rs)[i] < usable_frames(rs)[j],
    decreases rs.len(),
{
    if rs.len() > 0 {
        let pre = usable_frames(rs.drop_last());
        let part = if rs.last().usable {
            region_frames(rs.last())
        } else {
            Seq::<u64>::empty()
        };
        assert(regions_wf(rs.drop_last()));
        lemma_usable_frames_increasing(rs.drop_last());
        lemma_region_frames_span(rs.last());
        assert(forall|i: int|
            0 <= i < rs.drop_last().len() ==> (#[trigger] rs.drop_last()[i]).base
                + rs.drop_last()[i].len <= rs.last().base);
        lemma_usable_frames_below(rs.drop_last(), rs.last().base);
        assert forall|i: int, j: int| 0 <= i < j < usable_frames(rs).len() implies usable_frames(
            rs,
        )[i] < usable_frames(rs)[j] by {
            assert(usable_frames(rs) == pre + part);
            if j < pre.len() {
                assert(usable_frames(rs)[i] == pre[i] && usable_frames(rs)[j] == pre[j]);
            } else if i >= pre.len() {
                assert(usable_frames(rs)[i] == part[i - pre.len()] && usable_frames(rs)[j]
                    == part[j - pre.len()]);
                assert((i - pre.len()) * 4096 < (j - pre.len()) * 4096);
            } else {
                assert(usable_frames(rs)[i] == pre[i] && usable_frames(rs)[j] == part[j
                    - pre.len()]);
                assert(pre[i] < rs.last().base);
                assert(rs.last().base <= part[j - pre.len()]);
            }
        }
    }
}

/// The frame sequence of a valid inventory holds at least its index's worth
/// of page-sized steps at every position: frames are aligned and strictly
/// increasing, so the one at position `k` is at least `k` pages up.
pub proof fn lemma_usable_frame_floor(rs: Seq<RegionDescriptor>, k: int)
    requires
        regions_wf(rs),
        0 <= k < usable_frames(rs).len(),
    ensures
        usable_frames(rs)[k] >= k * 4096,
    decreases k,
{
    if k > 0 {
        lemma_usable_frame_floor(rs, k - 1);
        lemma_usable_frames_increasing(rs);
        lemma_usable_frames_aligned(rs);
        let a = usable_frames(rs)[k - 1];
        let b = usable_frames(rs)[k];
        assert(a + 4096 <= b) by (nonlinear_arith)
            requires
                a < b,
                a % 4096 == 0,
                b % 4096 == 0,
        ;
    }
}

/// A valid inventory yields far fewer frames than the cursor can count: the
/// frame sequence never exhausts a 64-bit cursor.
pub proof fn lemma_usable_frames_len(rs: Seq<RegionDescriptor>)
    requires
        regions_wf(rs),
    ensures
        usable_frames(rs).len() <= 0x10_0000_0000_0000,
{
    if usable_frames(rs).len() > 0x10_0000_0000_0000 {
        let k = 0x10_0000_0000_0000;
        lemma_usable_frame_floor(rs, k);
        assert(usable_frames(rs)[k] >= k * 4096);
    }
}

/// All frames of a valid inventory are frame-aligned.
pub proof fn lemma_usable_frames_aligned(rs: Seq<RegionDescriptor>)
    requires
        forall|i: int| 0 <= i < rs.len() ==> (#[trigger] rs[i]).wf(),
    ensures
        forall|k: int|
            0 <= k < usable_frames(rs).len() ==> aligned(#[trigger] usable_frames(rs)[k]),
    decreases rs.len(),
{
    if rs.len() > 0 {
        let pre = usable_frames(rs.drop_last());
        let part = if rs.last().usable {
            region_frames(rs.last())
        } else {
            Seq::<u64>::empty()
        };
        lemma_usable_frames_aligned(rs.drop_last());
        lemma_region_frames_span(rs.last());
        assert forall|k: int| 0 <= k < usable_frames(rs).len() implies aligned(
            #[trigger] usable_frames(rs)[k],
        ) by {
            assert(usable_frames(rs) == pre + part);
            if k < pre.len() {
                assert(usable_frames(rs)[k] == pre[k]);
            } else {
                assert(usable_frames(rs)[k] == part[k - pre.len()]);
            }
        }
    }
}

/// Allocator-uniqueness law: two successful allocations can never hand out
/// the same frame. Successful calls take consecutive cursor positions, and
/// the frame sequence of a valid inventory repeats no frame.
pub proof fn lemma_allocation_unique(rs: Seq<RegionDescriptor>, i: int, j: int)
    requires
        regions_wf(rs),
        0 <= i < usable_frames(rs).len(),
        0 <= j < usable_frames(rs).len(),
        i != j,
    ensures
        usable_frames(rs)[i] != usable_frames(rs)[j],
{
    lemma_usable_frames_increasing(rs);
}

/// Hands out the usable frames of the boot inventory, in order, each at most
/// once. Holds the immutable region list and a cursor counting the frames
/// already handed out; the cursor only ever grows.
pub struct BootInfoFrameAllocator {
    pub regions: Vec<RegionDescriptor>,
    pub next: u64,
}

impl BootInfoFrameAllocator {
    /// The allocator's inventory is valid.
    pub open spec fn wf(self) -> bool {
        regions_wf(self.regions@)
    }

    /// The ordered sequence of frames this allocator draws from.
    pub open spec fn frame_seq(self) -> Seq<u64> {
        usable_frames(self.regions@)
    }

    /// Builds an allocator over the boot inventory, with nothing handed out
    /// yet. The caller vouches for the inventory, as it vouches for the
    /// memory map the bootloader passed.
    pub fn init(regions: Vec<RegionDescriptor>) -> (r: Self)
        requires
            regions_wf(regions@),
        ensures
            r.wf(),
            r.regions@ == regions@,
            r.next == 0,
    {
        BootInfoFrameAllocator { regions, next: 0 }
    }

    /// Hands out the frame at the cursor's position in the usable-frame
    /// sequence and advances the cursor; once the sequence is exhausted,
    /// answers empty, and keeps answering empty.
    pub fn allocate_frame(&mut self) -> (r: Option<u64>)
        requires
            old(self).wf(),
        ensures
            final(self).wf(),
            final(self).regions@ == old(self).regions@,
            old(self).next < old(self).frame_seq().len() ==> r == Some(
                old(self).frame_seq()[old(self).next as int],
            ) && final(self).next == old(self).next + 1,
            old(self).next >= old(self).frame_seq().len() ==> r == None::<u64> && *final(self)
                == *old(self),
    {
        let ghost all = self.regions@;
        let mut i: usize = 0;
        let mut passed: u64 = 0;
        while i < self.regions.len()
            invariant
                self == old(self),
                self.wf(),
                i <= all.len(),
                all == self.regions@,
                passed == usable_frames(all.take(i as int)).len(),
                self.next >= passed,
            decreases all.len() - i,
        {
            let r = self.regions[i];
            proof {
                assert(all.take(i + 1).drop_last() =~= all.take(i as int));
                assert(all.take(i + 1).last() == all[i as int]);
            }
            if r.usable {
                let cnt: u64 = r.len / 4096;
                if self.next - passed < cnt {
                    let k: u64 = self.next - passed;
                    proof {
                        lemma_fundamental_div_mod(r.len as int, 4096);
                        assert(k * 4096 <= (cnt - 1) * 4096);
                        assert(all =~= all.take(i + 1) + all.skip(i + 1));
                        lemma_usable_frames_concat(all.take(i + 1), all.skip(i + 1));
                        assert(usable_frames(all)[self.next as int] == region_frames(
                            all[i as int],
                        )[k as int]);
                        lemma_usable_frames_len(all);
                        assert(self.next < usable_frames(all).len());
                    }
                    let frame: u64 = r.base + k * 4096;
                    self.next = self.next + 1;
                    return Some(frame);
                }
                passed = passed + cnt;
            }
            i += 1;
        }
        proof {
            assert(all.take(all.len() as int) =~= all);
        }
        None
    }
}

/// The two variants of the frame-producing capability: the real allocator
/// over the boot inventory, and a stand-in that never has a frame to give,
/// for callers that forbid new backing allocations.
pub enum FrameSource {
    Empty,
    Boot(BootInfoFrameAllocator),
}

impl FrameSource {
    /// The underlying inventory, if any, is valid.
    pub open spec fn wf(self) -> bool {
        match self {
            FrameSource::Empty => true,
            FrameSource::Boot(a) => a.wf(),
        }
    }

    /// The ordered sequence of frames this source draws from; empty for the
    /// stand-in.
    pub open spec fn frame_seq(self) -> Seq<u64> {
        match self {
            FrameSource::Empty => Seq::empty(),
            FrameSource::Boot(a) => a.frame_seq(),
        }
    }

    /// How many frames were already handed out.
    pub open spec fn cursor(self) -> u64 {
        match self {
            FrameSource::Empty => 0,
            FrameSource::Boot(a) => a.next,
        }
    }

    /// How many frames this source can still hand out.
    pub open spec fn remaining(self) -> nat {
        if self.cursor() >= self.frame_seq().len() {
            0
        } else {
            (self.frame_seq().len() - self.cursor()) as nat
        }
    }

    /// The frames a valid source draws from are aligned and pairwise
    /// distinct.
    pub proof fn lemma_frames(self)
        requires
            self.wf(),
        ensures
            forall|k: int|
                0 <= k < self.frame_seq().len() ==> aligned(#[trigger] self.frame_seq()[k]),
            forall|k1: int, k2: int|
                0 <= k1 < k2 < self.frame_seq().len() ==> #[trigger] self.frame_seq()[k1]
                    != #[trigger] self.frame_seq()[k2],
    {
        match self {
            FrameSource::Empty => {},
            FrameSource::Boot(a) => {
                lemma_usable_frames_aligned(a.regions@);
                lemma_usable_frames_increasing(a.regions@);
            },
        }
    }

    /// Hands out the next usable frame, or empty once exhausted — always
    /// empty for the stand-in variant.
    pub fn allocate_frame(&mut self) -> (r: Option<u64>)
        requires
            old(self).wf(),
        ensures
            final(self).wf(),
            final(self).frame_seq() == old(self).frame_seq(),
            old(self).cursor() < old(self).frame_seq().len() ==> r == Some(
                old(self).frame_seq()[old(self).cursor() as int],
            ) && final(self).cursor() == old(self).cursor() + 1,
            old(self).cursor() >= old(self).frame_seq().len() ==> r == None::<u64> && *final(self)
                == *old(self),
    {
        match self {
            FrameSource::Empty => None,
            FrameSource::Boot(a) => a.allocate_frame(),
        }
    }
}

} // verus!
