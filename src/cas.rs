//! The one atomic commit that both dispensers are built on: read the word,
//! decide the next value by a pure step, store it only if the word is still
//! what was read, and retry otherwise.

use std::sync::atomic::{AtomicUsize, Ordering};
use vstd::prelude::*;

verus! {

/// The end of the chunk that starts at `start`: `step` further on, or the
/// end of the buffer where fewer elements are left.
pub open spec fn chunk_end(start: int, len: int, step: int) -> int {
    if len - start <= step {
        len
    } else {
        start + step
    }
}

/// The two ways a dispenser's word moves forward.
#[derive(Clone, Copy, PartialEq, Eq, Debug)]
pub enum StepRule {
    /// The word counts the tickets left and goes down by one.
    CountDown,
    /// The word is the start of the next chunk of a buffer of `len`
    /// elements cut into chunks of `step`.
    Advance { len: usize, step: usize },
}

impl StepRule {
    /// The value that follows `current`, or `None` where the dispenser is
    /// exhausted.
    pub open spec fn next_spec(self, current: usize) -> Option<usize> {
        match self {
            StepRule::CountDown => if current == 0 {
                None
            } else {
                Some((current - 1) as usize)
            },
            StepRule::Advance { len, step } => if current >= len {
                None
            } else {
                Some(chunk_end(current as int, len as int, step as int) as usize)
            },
        }
    }

    /// Computes the value that follows `current`.
    pub fn apply(self, current: usize) -> (r: Option<usize>)
        ensures
            r == self.next_spec(current),
    {
        match self {
            StepRule::CountDown => if current == 0 {
                None
            } else {
                Some(current - 1)
            },
            StepRule::Advance { len, step } => if current >= len {
                None
            } else if len - current <= step {
                Some(len)
            } else {
                Some(current + step)
            },
        }
    }
}

/// Relies on std's `AtomicUsize::fetch_update`, here with sequentially
/// consistent ordering: it applies the step to the stored value and, where
/// the step gives `Some(v)`, stores `v` in one atomic step, retrying on
/// interference. It returns `Ok(p)` where the step gave `Some(_)` for the
/// value `p` that was replaced, and `Err(p)` where it gave `None` for the
/// value `p` it read.
#[verifier::external_body]
pub(crate) fn fetch_update_seq_cst(cell: &AtomicUsize, rule: StepRule) -> (r: Result<usize, usize>)
    ensures
        match r {
            Ok(p) => rule.next_spec(p) is Some,
            Err(p) => rule.next_spec(p) is None,
        },
{
    cell.fetch_update(Ordering::SeqCst, Ordering::SeqCst, |c| rule.apply(c))
}

} // verus!
