//! Batch statistics.

use vstd::prelude::*;

verus! {

/// Statistics for batch operations.
pub struct BatchStats {
    pub total: usize,
    pub success: usize,
    pub failed: usize,
}

impl Default for BatchStats {
    fn default() -> (res: Self)
        ensures
            res.total == 0 && res.success == 0 && res.failed == 0,
    {
        BatchStats { total: 0, success: 0, failed: 0 }
    }
}

impl BatchStats {
    /// Empty statistics.
    pub fn new() -> (res: Self)
        ensures
            res.total == 0 && res.success == 0 && res.failed == 0,
    {
        BatchStats { total: 0, success: 0, failed: 0 }
    }

    /// Counts one more success.
    pub fn record_success(&mut self)
        requires
            old(self).success < usize::MAX,
        ensures
            final(self).success == old(self).success + 1,
            final(self).failed == old(self).failed,
            final(self).total == old(self).total,
    {
        self.success = self.success + 1;
    }

    /// Counts one more failure.
    pub fn record_failure(&mut self)
        requires
            old(self).failed < usize::MAX,
        ensures
            final(self).failed == old(self).failed + 1,
            final(self).success == old(self).success,
            final(self).total == old(self).total,
    {
        self.failed = self.failed + 1;
    }
}

} // verus!
