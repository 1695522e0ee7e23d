//! The byte ranges in which a large file is fetched piece by piece.

use vstd::prelude::*;

verus! {

/// A piece size of zero was asked for.
#[derive(Debug, Clone, Copy, PartialEq, Eq, Structural)]
pub struct EmptyBuffer;

/// The ranges, each at most `buffer_size` bytes long, that cover the bytes
/// from `start` to `end`, both included, from the left.
#[derive(Debug, Clone, Copy, PartialEq, Eq, Structural)]
pub struct PartialRangeIter {
    pub start: u64,
    pub end: u64,
    pub buffer_size: u64,
}

/// The length of the next range of `ranges`.
pub open spec fn next_length(ranges: PartialRangeIter) -> int {
    if ranges.buffer_size <= ranges.end - ranges.start + 1 {
        ranges.buffer_size as int
    } else {
        ranges.end - ranges.start + 1
    }
}

/// The number of ranges that `ranges` still gives.
pub open spec fn ranges_left(ranges: PartialRangeIter) -> nat
    decreases ranges.end - ranges.start + 1,
    when ranges.buffer_size > 0 && ranges.end < u64::MAX
{
    if ranges.start > ranges.end {
        0
    } else {
        1 + ranges_left(
            PartialRangeIter {
                start: (ranges.start + next_length(ranges)) as u64,
                end: ranges.end,
                buffer_size: ranges.buffer_size,
            },
        )
    }
}

/// `ranges` after its next range was handed out.
pub open spec fn advanced(ranges: PartialRangeIter) -> PartialRangeIter {
    PartialRangeIter {
        start: (ranges.start + next_length(ranges)) as u64,
        end: ranges.end,
        buffer_size: ranges.buffer_size,
    }
}

/// The ranges that `ranges` still gives, each as its first and its last
/// byte.
pub open spec fn ranges_of(ranges: PartialRangeIter) -> Seq<(int, int)>
    decreases ranges.end - ranges.start + 1,
    when ranges.buffer_size > 0 && ranges.end < u64::MAX
{
    if ranges.start > ranges.end {
        Seq::empty()
    } else {
        seq![(ranges.start as int, ranges.start + next_length(ranges) - 1)] + ranges_of(
            advanced(ranges),
        )
    }
}

/// The ranges cover every byte from `start` to `end` once: the first begins
/// at `start`, each begins behind the end of the one before, the last ends
/// at `end`, none is empty and none is longer than `buffer_size`.
pub proof fn lemma_ranges_cover(ranges: PartialRangeIter)
    requires
        ranges.buffer_size > 0,
        ranges.end < u64::MAX,
    ensures
        ranges_of(ranges).len() == ranges_left(ranges),
        ranges.start > ranges.end ==> ranges_of(ranges).len() == 0,
        ranges.start <= ranges.end ==> ranges_of(ranges).len() > 0 && ranges_of(ranges)[0].0
            == ranges.start && ranges_of(ranges).last().1 == ranges.end,
        forall|k: int|
            0 <= k < ranges_of(ranges).len() ==> {
                let range = #[trigger] ranges_of(ranges)[k];
                range.0 <= range.1 && range.1 - range.0 + 1 <= ranges.buffer_size
            },
        forall|k: int|
            0 <= k < ranges_of(ranges).len() - 1 ==> (#[trigger] ranges_of(ranges)[k + 1]).0
                == ranges_of(ranges)[k].1 + 1,
    decreases ranges.end - ranges.start + 1,
{
    if ranges.start <= ranges.end {
        let rest = advanced(ranges);
        lemma_ranges_cover(rest);
        let first = seq![(ranges.start as int, ranges.start + next_length(ranges) - 1)];
        let all = ranges_of(ranges);
        assert(all == first + ranges_of(rest));
        assert forall|k: int| 0 <= k < all.len() implies {
            let range = #[trigger] all[k];
            range.0 <= range.1 && range.1 - range.0 + 1 <= ranges.buffer_size
        } by {
            if k > 0 {
                assert(all[k] == ranges_of(rest)[k - 1]);
            }
        }
        assert forall|k: int| 0 <= k < all.len() - 1 implies (#[trigger] all[k + 1]).0 == all[k].1
            + 1 by {
            let tail = ranges_of(rest);
            assert(all[k + 1] == tail[k]);
            if k > 0 {
                assert(all[k] == tail[k - 1]);
                assert(tail[(k - 1) + 1].0 == tail[k - 1].1 + 1);
            } else {
                assert(tail.len() > 0);
                assert(rest.start <= rest.end);
                assert(tail[0].0 == rest.start);
                assert(all[0] == first[0]);
            }
        }
        if rest.start <= rest.end {
            assert(all.last() == ranges_of(rest).last());
        }
    }
}

impl PartialRangeIter {
    /// The ranges of at most `buffer_size` bytes that cover `start..=end`.
    pub fn new(start: u64, end: u64, buffer_size: u64) -> (r: Result<Self, EmptyBuffer>)
        ensures
            buffer_size == 0 ==> r == Err::<Self, EmptyBuffer>(EmptyBuffer),
            buffer_size > 0 ==> r == Ok::<Self, EmptyBuffer>(
                PartialRangeIter { start, end, buffer_size },
            ),
    {
        if buffer_size == 0 {
            return Err(EmptyBuffer);
        }
        Ok(PartialRangeIter { start, end, buffer_size })
    }

    /// The next range, as its first and its last byte, or `None` where
    /// every byte is covered. The range begins where the one before ended
    /// and is `buffer_size` bytes long, or as long as what is left.
    pub fn next(&mut self) -> (r: Option<(u64, u64)>)
        requires
            old(self).buffer_size > 0,
            old(self).end < u64::MAX,
        ensures
            final(self).end == old(self).end,
            final(self).buffer_size == old(self).buffer_size,
            old(self).start > old(self).end ==> r is None && final(self).start == old(self).start,
            old(self).start <= old(self).end ==> r == Some(
                (old(self).start, (old(self).start + next_length(*old(self)) - 1) as u64),
            ) && final(self).start == old(self).start + next_length(*old(self)),
            r is Some ==> *final(self) == advanced(*old(self)),
            ranges_left(*old(self)) == ranges_left(*final(self)) + if r is Some {
                1nat
            } else {
                0nat
            },
    {
        if self.start > self.end {
            None
        } else {
            let prev_start = self.start;
            let left = self.end - self.start + 1;
            let step = if self.buffer_size <= left {
                self.buffer_size
            } else {
                left
            };
            self.start = self.start + step;
            Some((prev_start, self.start - 1))
        }
    }
}

} // verus!
