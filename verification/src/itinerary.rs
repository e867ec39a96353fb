//! An itinerary: the availability of a single day, as a set of pairwise
//! non-overlapping time blocks kept sorted by start time.

use vstd::prelude::*;

use crate::Error;
use crate::timeblock::SECONDS_PER_DAY;
use crate::timeblock::TimeBlock;

verus! {

/// Well-formed block sequence: every block is well formed and the blocks are
/// sorted with no overlap (each block ends no later than the next starts).
pub open spec fn itin_wf(s: Seq<TimeBlock>) -> bool {
    (forall|i: int| 0 <= i < s.len() ==> (#[trigger] s[i]).wf())
    && (forall|i: int, j: int|
        #![trigger s[i], s[j]]
        0 <= i < j < s.len() ==> s[i].end <= s[j].start)
}

/// Seconds of `[t0, t1)` covered by the blocks at indices `i..`, counting
/// each block's intersection with the range.
pub open spec fn itin_time_between_from(s: Seq<TimeBlock>, t0: int, t1: int, i: int) -> int
    decreases s.len() - i,
{
    if i < 0 || i >= s.len() {
        0
    } else {
        s[i].spec_time_between(t0, t1) + itin_time_between_from(s, t0, t1, i + 1)
    }
}

/// Seconds of `[t0, t1)` covered by the itinerary's blocks.
pub open spec fn itin_time_between(s: Seq<TimeBlock>, t0: int, t1: int) -> int {
    itin_time_between_from(s, t0, t1, 0)
}

/// Covered time is never negative.
pub proof fn lemma_itin_tb_nonneg(s: Seq<TimeBlock>, t0: int, t1: int, i: int)
    ensures
        0 <= itin_time_between_from(s, t0, t1, i),
    decreases s.len() - i,
{
    if 0 <= i < s.len() {
        lemma_itin_tb_nonneg(s, t0, t1, i + 1);
    }
}

/// An empty or reversed range covers nothing.
pub proof fn lemma_itin_tb_empty_range(s: Seq<TimeBlock>, t0: int, t1: int, i: int)
    requires
        t1 <= t0,
    ensures
        itin_time_between_from(s, t0, t1, i) == 0,
    decreases s.len() - i,
{
    if 0 <= i < s.len() {
        lemma_itin_tb_empty_range(s, t0, t1, i + 1);
    }
}

/// Covered time splits at any point of the range.
pub proof fn lemma_itin_tb_additive(s: Seq<TimeBlock>, t0: int, tm: int, t1: int, i: int)
    requires
        t0 <= tm <= t1,
    ensures
        itin_time_between_from(s, t0, t1, i)
            == itin_time_between_from(s, t0, tm, i) + itin_time_between_from(s, tm, t1, i),
    decreases s.len() - i,
{
    if 0 <= i < s.len() {
        lemma_itin_tb_additive(s, t0, tm, t1, i + 1);
    }
}

/// Growing the range on the right never loses covered time.
pub proof fn lemma_itin_tb_monotone(s: Seq<TimeBlock>, t0: int, t1: int, t2: int, i: int)
    requires
        t0 <= t1 <= t2,
    ensures
        itin_time_between_from(s, t0, t1, i) <= itin_time_between_from(s, t0, t2, i),
{
    lemma_itin_tb_additive(s, t0, t1, t2, i);
    lemma_itin_tb_nonneg(s, t1, t2, i);
}

/// If every block at `i..` starts at or after `m`, the part of the range
/// before `m` contributes nothing.
pub proof fn lemma_itin_tb_shift_start(s: Seq<TimeBlock>, t0: int, m: int, t1: int, i: int)
    requires
        t0 <= m,
        forall|j: int| i <= j < s.len() ==> (#[trigger] s[j]).start >= m,
    ensures
        itin_time_between_from(s, t0, t1, i) == itin_time_between_from(s, m, t1, i),
    decreases s.len() - i,
{
    if 0 <= i < s.len() {
        lemma_itin_tb_shift_start(s, t0, m, t1, i + 1);
    }
}

/// Blocks that end before the range starts contribute nothing: the sum over
/// all blocks equals the sum over the blocks at `i..`.
pub proof fn lemma_itin_tb_prefix_dead(s: Seq<TimeBlock>, t0: int, t1: int, k: int, i: int)
    requires
        0 <= k <= i <= s.len(),
        forall|j: int| k <= j < i ==> (#[trigger] s[j]).end <= t0,
    ensures
        itin_time_between_from(s, t0, t1, k) == itin_time_between_from(s, t0, t1, i),
    decreases i - k,
{
    if k < i {
        lemma_itin_tb_prefix_dead(s, t0, t1, k + 1, i);
    }
}

/// Blocks that start after the range ends contribute nothing.
pub proof fn lemma_itin_tb_suffix_dead(s: Seq<TimeBlock>, t0: int, t1: int, i: int)
    requires
        forall|j: int| i <= j < s.len() ==> (#[trigger] s[j]).start >= t1,
    ensures
        itin_time_between_from(s, t0, t1, i) == 0,
    decreases s.len() - i,
{
    if 0 <= i < s.len() {
        lemma_itin_tb_suffix_dead(s, t0, t1, i + 1);
    }
}

/// A range that lies inside one block is covered in full.
pub proof fn lemma_itin_tb_inside(s: Seq<TimeBlock>, t0: int, t1: int, k: int)
    requires
        itin_wf(s),
        0 <= k < s.len(),
        s[k].start <= t0 <= t1,
        t1 <= s[k].end,
    ensures
        itin_time_between(s, t0, t1) == t1 - t0,
{
    assert(forall|j: int| 0 <= j < k ==> (#[trigger] s[j]).end <= t0);
    lemma_itin_tb_prefix_dead(s, t0, t1, 0, k);
    assert(forall|j: int| k + 1 <= j < s.len() ==> (#[trigger] s[j]).start >= t1);
    lemma_itin_tb_suffix_dead(s, t0, t1, k + 1);
    assert(itin_time_between_from(s, t0, t1, k)
        == s[k].spec_time_between(t0, t1) + itin_time_between_from(s, t0, t1, k + 1));
}

/// The covered time of `[t0, t1)` is at most the length of the range.
pub proof fn lemma_itin_tb_bound(s: Seq<TimeBlock>, t0: int, t1: int, i: int)
    requires
        itin_wf(s),
        0 <= i,
    ensures
        itin_time_between_from(s, t0, t1, i) <= if t1 - t0 > 0 { t1 - t0 } else { 0 },
    decreases s.len() - i,
{
    if i >= s.len() {
    } else if t1 <= t0 {
        lemma_itin_tb_empty_range(s, t0, t1, i);
    } else if s[i].end <= t0 {
        lemma_itin_tb_bound(s, t0, t1, i + 1);
    } else {
        let m = s[i].end as int;
        assert(forall|j: int| i + 1 <= j < s.len() ==> (#[trigger] s[j]).start >= m);
        if m >= t1 {
            lemma_itin_tb_suffix_dead(s, t0, t1, i + 1);
        } else {
            lemma_itin_tb_shift_start(s, t0, m, t1, i + 1);
            lemma_itin_tb_bound(s, m, t1, i + 1);
        }
    }
}

/// One day's availability: a set of non-overlapping time blocks, kept sorted
/// by start time.
#[derive(Debug)]
pub struct Itinerary {
    blocks: Vec<TimeBlock>,
}

impl View for Itinerary {
    type V = Seq<TimeBlock>;

    closed spec fn view(&self) -> Seq<TimeBlock> {
        self.blocks@
    }
}

impl Itinerary {
    /// The itinerary's invariant: blocks are well formed, sorted, and
    /// pairwise non-overlapping.
    pub open spec fn wf(&self) -> bool {
        itin_wf(self@)
    }

    /// An itinerary with no availability at all.
    pub fn new() -> (r: Itinerary)
        ensures
            r@ == Seq::<TimeBlock>::empty(),
            r.wf(),
    {
        Itinerary { blocks: Vec::new() }
    }

    /// How many blocks the itinerary holds.
    pub fn len(&self) -> (r: usize)
        ensures
            r == self@.len(),
    {
        self.blocks.len()
    }

    /// The block at position `i`, in start-time order.
    pub fn block_at(&self, i: usize) -> (r: TimeBlock)
        requires
            i < self@.len(),
        ensures
            r == self@[i as int],
    {
        self.blocks[i]
    }

    /// Inserts `block`, keeping the blocks sorted. Fails with
    /// [`Error::OverlapError`], leaving the itinerary unchanged, exactly when
    /// `block` overlaps one already present.
    pub fn add_timeblock(&mut self, block: TimeBlock) -> (r: Result<(), Error>)
        requires
            old(self).wf(),
            block.wf(),
        ensures
            final(self).wf(),
            match r {
                Ok(_) => exists|k: int|
                    0 <= k <= old(self)@.len() && final(self)@ == old(self)@.insert(k, block),
                Err(e) => e == Error::OverlapError && final(self)@ == old(self)@,
            },
            (r is Err) <==> exists|j: int|
                0 <= j < old(self)@.len() && (#[trigger] old(self)@[j]).spec_overlaps(block),
    {
        let ghost s = self.blocks@;
        let mut i: usize = 0;
        while i < self.blocks.len()
            invariant
                self.blocks@ == s,
                itin_wf(s),
                i <= s.len(),
                forall|j: int| 0 <= j < i ==> !(#[trigger] s[j]).spec_overlaps(block),
            decreases s.len() - i,
        {
            if self.blocks[i].overlaps(&block) {
                assert(s[i as int].spec_overlaps(block));
                assert(self.wf());
                return Err(Error::OverlapError);
            }
            i += 1;
        }
        let mut k: usize = 0;
        while k < self.blocks.len() && self.blocks[k].start < block.start
            invariant
                self.blocks@ == s,
                k <= s.len(),
                forall|j: int| 0 <= j < k ==> (#[trigger] s[j]).start < block.start,
            decreases s.len() - k,
        {
            k += 1;
        }
        proof {
            assert(forall|j: int| 0 <= j < k ==> (#[trigger] s[j]).end <= block.start);
            assert(forall|j: int| k <= j < s.len() ==> (#[trigger] s[j]).start >= block.end);
        }
        self.blocks.insert(k, block);
        proof {
            let t = self.blocks@;
            assert(t.len() == s.len() + 1);
            assert(forall|a: int| 0 <= a < k ==> #[trigger] t[a] == s[a]);
            assert(t[k as int] == block);
            assert(forall|a: int| k < a < t.len() ==> #[trigger] t[a] == s[a - 1]);
            assert forall|a: int, b: int|
                #![trigger t[a], t[b]]
                0 <= a < b < t.len() implies t[a].end <= t[b].start by {
                if a < k && b < k {
                    assert(s[a].end <= s[b].start);
                } else if a < k && b == k {
                    assert(s[a].end <= block.start);
                } else if a < k && b > k {
                    assert(s[a].end <= s[b - 1].start);
                } else if a == k {
                    assert(s[b - 1].start >= block.end);
                } else {
                    assert(s[a - 1].end <= s[b - 1].start);
                }
            }
            assert forall|a: int| 0 <= a < t.len() implies (#[trigger] t[a]).wf() by {
                if a < k {
                    assert(s[a].wf());
                } else if a > k {
                    assert(s[a - 1].wf());
                }
            }
        }
        Ok(())
    }

    /// Removes the block with exactly these bounds, if present. Returns
    /// whether a block was removed.
    pub fn remove_timeblock(&mut self, block: TimeBlock) -> (r: bool)
        requires
            old(self).wf(),
        ensures
            final(self).wf(),
            r <==> old(self)@.contains(block),
            r ==> exists|k: int|
                0 <= k < old(self)@.len() && old(self)@[k] == block
                    && final(self)@ == old(self)@.remove(k),
            !r ==> final(self)@ == old(self)@,
    {
        let ghost s = self.blocks@;
        let mut i: usize = 0;
        while i < self.blocks.len()
            invariant
                self.blocks@ == s,
                s == old(self)@,
                itin_wf(s),
                i <= s.len(),
                forall|j: int| 0 <= j < i ==> (#[trigger] s[j]) != block,
            decreases s.len() - i,
        {
            if self.blocks[i] == block {
                self.blocks.remove(i);
                proof {
                    let t = self.blocks@;
                    assert(t.len() == s.len() - 1);
                    assert(forall|a: int| 0 <= a < i ==> #[trigger] t[a] == s[a]);
                    assert(forall|a: int| i <= a < t.len() ==> #[trigger] t[a] == s[a + 1]);
                    assert forall|a: int, b: int|
                        #![trigger t[a], t[b]]
                        0 <= a < b < t.len() implies t[a].end <= t[b].start by {
                        if a < i && b < i {
                            assert(s[a].end <= s[b].start);
                        } else if a < i {
                            assert(s[a].end <= s[b + 1].start);
                        } else {
                            assert(s[a + 1].end <= s[b + 1].start);
                        }
                    }
                    assert forall|a: int| 0 <= a < t.len() implies (#[trigger] t[a]).wf() by {
                        if a < i {
                            assert(s[a].wf());
                        } else {
                            assert(s[a + 1].wf());
                        }
                    }
                    assert(s.contains(block));
                    assert(old(self)@[i as int] == block
                        && self.blocks@ == old(self)@.remove(i as int));
                }
                return true;
            }
            i += 1;
        }
        assert(!s.contains(block));
        false
    }

    /// How much of `[t0, t1)` is covered by this itinerary's blocks, in
    /// seconds.
    pub fn time_between(&self, t0: u32, t1: u32) -> (r: u64)
        requires
            self.wf(),
            t0 <= SECONDS_PER_DAY,
            t1 <= SECONDS_PER_DAY,
        ensures
            r == itin_time_between(self@, t0 as int, t1 as int),
    {
        let ghost s = self@;
        let mut acc: u64 = 0;
        let mut i: usize = 0;
        proof {
            lemma_itin_tb_bound(s, t0 as int, t1 as int, 0);
        }
        while i < self.blocks.len()
            invariant
                self@ == s,
                self.wf(),
                t0 <= SECONDS_PER_DAY,
                t1 <= SECONDS_PER_DAY,
                i <= s.len(),
                acc + itin_time_between_from(s, t0 as int, t1 as int, i as int)
                    == itin_time_between(s, t0 as int, t1 as int),
                acc <= SECONDS_PER_DAY,
            decreases s.len() - i,
        {
            let piece = self.blocks[i].time_between(t0, t1);
            proof {
                lemma_itin_tb_nonneg(s, t0 as int, t1 as int, i as int + 1);
                lemma_itin_tb_bound(s, t0 as int, t1 as int, 0);
            }
            acc = acc + piece as u64;
            i += 1;
        }
        acc
    }

    /// Consumes up to `remaining` seconds of availability, starting at
    /// `start_time`. Returns the time of day at which the remainder reached
    /// zero, or the end of the day together with what is still owed.
    pub fn earliest_complete(&self, start_time: u32, remaining: u64) -> (r: (u32, u64))
        requires
            self.wf(),
            start_time <= SECONDS_PER_DAY,
        ensures
            start_time <= r.0 <= SECONDS_PER_DAY,
            r.1 <= remaining,
            itin_time_between(self@, start_time as int, r.0 as int) == remaining - r.1,
            r.1 == 0 ==> forall|t: int|
                start_time <= t < r.0 ==> itin_time_between(self@, start_time as int, t) < remaining,
            r.1 > 0 ==> r.0 == SECONDS_PER_DAY,
    {
        let ghost s = self@;
        if remaining == 0 {
            proof {
                lemma_itin_tb_empty_range(s, start_time as int, start_time as int, 0);
            }
            return (start_time, 0);
        }
        let mut cur: u32 = start_time;
        let mut rem: u64 = remaining;
        let mut i: usize = 0;
        proof {
            lemma_itin_tb_empty_range(s, start_time as int, start_time as int, 0);
        }
        while i < self.blocks.len()
            invariant
                self@ == s,
                self.wf(),
                start_time <= cur <= SECONDS_PER_DAY,
                i <= s.len(),
                0 < rem <= remaining,
                itin_time_between(s, start_time as int, cur as int) == remaining - rem,
                forall|j: int| 0 <= j < i ==> (#[trigger] s[j]).end <= cur,
            decreases s.len() - i,
        {
            let b = self.blocks[i];
            let lo = if cur > b.start { cur } else { b.start };
            if b.end > lo {
                // The range [cur, lo) holds no availability: earlier blocks
                // end at or before cur, this one starts at lo at the
                // earliest, later ones start at or after this one ends.
                proof {
                    lemma_itin_tb_prefix_dead(s, cur as int, lo as int, 0, i as int);
                    if lo == cur {
                        lemma_itin_tb_empty_range(s, cur as int, lo as int, i as int);
                    } else {
                        assert(forall|j: int|
                            i <= j < s.len() ==> (#[trigger] s[j]).start >= lo);
                        lemma_itin_tb_suffix_dead(s, cur as int, lo as int, i as int);
                    }
                    lemma_itin_tb_additive(s, start_time as int, cur as int, lo as int, 0);
                }
                let avail = (b.end - lo) as u64;
                if avail >= rem {
                    let t2 = lo + (rem as u32);
                    proof {
                        lemma_itin_tb_inside(s, lo as int, t2 as int, i as int);
                        lemma_itin_tb_additive(s, start_time as int, lo as int, t2 as int, 0);
                        assert(itin_time_between(s, start_time as int, t2 as int) == remaining);
                        assert forall|t: int| start_time <= t < t2 implies
                            itin_time_between(s, start_time as int, t) < remaining by {
                            if t <= lo {
                                lemma_itin_tb_monotone(s, start_time as int, t, lo as int, 0);
                            } else {
                                lemma_itin_tb_additive(s, start_time as int, lo as int, t, 0);
                                lemma_itin_tb_bound(s, lo as int, t, 0);
                            }
                        }
                    }
                    return (t2, 0);
                } else {
                    proof {
                        lemma_itin_tb_inside(s, lo as int, b.end as int, i as int);
                        lemma_itin_tb_additive(s, start_time as int, lo as int, b.end as int, 0);
                    }
                    rem = rem - avail;
                    cur = b.end;
                }
            } else {
                // The whole block lies at or before cur.
                assert(b.end <= cur);
            }
            i += 1;
        }
        proof {
            lemma_itin_tb_prefix_dead(s, cur as int, SECONDS_PER_DAY as int, 0, s.len() as int);
            lemma_itin_tb_additive(s, start_time as int, cur as int, SECONDS_PER_DAY as int, 0);
        }
        (SECONDS_PER_DAY, rem)
    }
}

/// Law: an empty range is never covered, whatever the itinerary.
pub proof fn lemma_time_between_point(s: Seq<TimeBlock>, t: int)
    ensures
        itin_time_between(s, t, t) == 0,
{
    lemma_itin_tb_empty_range(s, t, t, 0);
}

/// Law: an itinerary holding exactly one block covers the block's own span
/// in full, so its covered time equals the block's duration.
pub proof fn lemma_time_between_single_block(b: TimeBlock)
    requires
        b.wf(),
    ensures
        itin_time_between(seq![b], b.start as int, b.end as int) == b.end - b.start,
{
    lemma_itin_tb_inside(seq![b], b.start as int, b.end as int, 0);
}

/// Law: inserting a block into the empty itinerary, removing it, and
/// inserting it again yields the itinerary that a single insertion yields.
/// The three hypotheses are the effects that `add_timeblock` and
/// `remove_timeblock` state for these calls.
pub proof fn lemma_block_readd_idempotent(
    b: TimeBlock,
    once: Seq<TimeBlock>,
    removed: Seq<TimeBlock>,
    readded: Seq<TimeBlock>,
)
    requires
        exists|k: int| 0 <= k <= 0 && once == Seq::<TimeBlock>::empty().insert(k, b),
        exists|k: int| 0 <= k < once.len() && once[k] == b && removed == once.remove(k),
        exists|k: int| 0 <= k <= removed.len() && readded == removed.insert(k, b),
    ensures
        readded == once,
        removed == Seq::<TimeBlock>::empty(),
{
    assert(once =~= seq![b]);
    assert(removed =~= Seq::<TimeBlock>::empty());
    assert(readded =~= once);
}

} // verus!
