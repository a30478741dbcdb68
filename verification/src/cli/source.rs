//! How many input frames the command line reads.
use vstd::prelude::*;

verus! {

/// Counts the frames read against an optional limit.
pub struct FrameBudget {
    limit: usize,
    count: usize,
}

/// The bit depths that the input may have.
pub open spec fn supported_bit_depth(bit_depth: usize) -> bool {
    bit_depth == 8 || bit_depth == 10 || bit_depth == 12
}

impl FrameBudget {
    /// The limit, 0 for none.
    pub closed spec fn limit(&self) -> usize {
        self.limit
    }

    /// The frames read so far.
    pub closed spec fn count(&self) -> usize {
        self.count
    }

    /// Whether another frame may be read: no limit, or the limit not
    /// reached.
    pub open spec fn open(&self) -> bool {
        !(self.limit() != 0 && self.count() == self.limit())
    }

    /// With a limit, no more frames than the limit have been read.
    pub open spec fn within_limit(&self) -> bool {
        self.limit() == 0 || self.count() <= self.limit()
    }

    /// No frame read yet; `limit` 0 means no limit.
    pub fn new(limit: usize) -> (b: Self)
        ensures
            b.limit() == limit,
            b.count() == 0,
            b.within_limit(),
    {
        FrameBudget { limit, count: 0 }
    }

    /// The number of frames read so far.
    pub fn frames_read(&self) -> (n: usize)
        ensures
            n == self.count(),
    {
        self.count
    }

    /// Whether another frame may be read.
    pub fn may_read(&self) -> (r: bool)
        ensures
            r == self.open(),
    {
        !(self.limit != 0 && self.count == self.limit)
    }

    /// Counts one frame read of the given bit depth, which must be one that
    /// the encoder takes.
    pub fn count_frame(&mut self, bit_depth: usize)
        requires
            old(self).open(),
            supported_bit_depth(bit_depth),
            old(self).count() < usize::MAX,
        ensures
            final(self).limit() == old(self).limit(),
            final(self).count() == old(self).count() + 1,
            old(self).within_limit() ==> final(self).within_limit(),
    {
        self.count = self.count + 1;
    }
}

/// The count after `n` attempts to read a frame from `count` on, each
/// reading one where the budget is open.
pub open spec fn count_after_attempts(limit: usize, count: int, n: nat) -> int
    decreases n,
{
    if n == 0 {
        count
    } else if !(limit != 0 && count == limit) {
        count_after_attempts(limit, count + 1, (n - 1) as nat)
    } else {
        count
    }
}

/// Any number of read attempts reads a frame per attempt while the budget
/// is open: without a limit every attempt reads one; with a limit the count
/// ends at the smaller of the attempts and the limit, and once the limit is
/// reached every further attempt reads nothing.
pub proof fn lemma_budget_over_attempts(limit: usize, count: int, n: nat)
    requires
        limit == 0 || 0 <= count <= limit,
    ensures
        limit == 0 ==> count_after_attempts(limit, count, n) == count + n,
        limit != 0 ==> count_after_attempts(limit, count, n) == if count + n <= limit {
            count + n
        } else {
            limit as int
        },
        limit != 0 && count == limit ==> count_after_attempts(limit, count, n) == count,
    decreases n,
{
    if n > 0 && (limit == 0 || count < limit) {
        lemma_budget_over_attempts(limit, count + 1, (n - 1) as nat);
    }
}

} // verus!
