//! A ticket counter: made with a count `n`, it hands out the tickets
//! `n - 1`, `n - 2`, ..., `0`, each to exactly one caller, across threads.

use crate::cas::{fetch_update_seq_cst, StepRule};
use std::sync::atomic::AtomicUsize;
use vstd::prelude::*;

verus! {

/// What one successful dispense turns the remaining count into, or `None`
/// once no ticket is left. The new count is also the ticket handed out.
pub open spec fn dispense_spec(remaining: usize) -> Option<usize> {
    StepRule::CountDown.next_spec(remaining)
}

/// The ticket that the outcome of one atomic count-down hands out: the new
/// count where the update was made, `None` where the counter was found
/// exhausted.
pub fn ticket_of(res: Result<usize, usize>) -> (r: Option<usize>)
    ensures
        r == match res {
            Ok(p) => dispense_spec(p),
            Err(_) => None::<usize>,
        },
{
    match res {
        Ok(p) => StepRule::CountDown.apply(p),
        Err(_) => None,
    }
}

/// A dispenser of the tickets below a fixed count, safe to share between
/// threads.
pub struct Counter {
    count: AtomicUsize,
    total: usize,
}

impl Counter {
    /// The count the counter was made with.
    pub closed spec fn total(&self) -> usize {
        self.total
    }

    /// A counter that will hand out the tickets `0..count`.
    pub fn new(count: usize) -> (r: Counter)
        ensures
            r.total() == count,
    {
        Counter { count: AtomicUsize::new(count), total: count }
    }

    /// Hands out the next ticket, or `None` once every ticket has been
    /// handed out. A ticket is the count observed by the winning atomic
    /// update, less one.
    pub fn next(&self) -> (r: Option<usize>)
        ensures
            match r {
                Some(t) => exists|p: usize| dispense_spec(p) == Some(t),
                None => true,
            },
    {
        let res = fetch_update_seq_cst(&self.count, StepRule::CountDown);
        ticket_of(res)
    }
}

/// The count left after `k` successful dispenses on a counter made with `n`
/// (a call on an exhausted counter leaves it as it is).
pub open spec fn count_after(n: usize, k: nat) -> usize
    decreases k,
{
    if k == 0 {
        n
    } else {
        let c = count_after(n, (k - 1) as nat);
        match dispense_spec(c) {
            Some(d) => d,
            None => c,
        }
    }
}

/// What the call that follows `k` successful dispenses on a counter made
/// with `n` hands out.
pub open spec fn ticket_at(n: usize, k: nat) -> Option<usize> {
    dispense_spec(count_after(n, k))
}

/// Whether one of the first `n` successful dispenses on a counter made with
/// `n` hands out the ticket `t`.
pub open spec fn issued(n: usize, t: usize) -> bool {
    exists|k: nat| k < n && #[trigger] ticket_at(n, k) == Some(t)
}

proof fn lemma_count_after(n: usize, k: nat)
    ensures
        count_after(n, k) == if k <= n {
            n - k
        } else {
            0
        },
    decreases k,
{
    if k > 0 {
        lemma_count_after(n, (k - 1) as nat);
    }
}

/// Takes the successful dispenses of a counter made with `n` as one
/// sequence of count-down steps from `n`. That they form one sequence is the
/// atomicity of std's `fetch_update`, which is relied on, not proved here.
/// The first `n` of them hand out
/// every ticket in `0..n`, each exactly once, in descending order. Every
/// call after them finds the counter exhausted, for good.
pub proof fn lemma_tickets_cover(n: usize)
    ensures
        forall|k: nat| k < n ==> #[trigger] ticket_at(n, k) == Some((n - 1 - k) as usize),
        forall|j: nat, k: nat|
            j < n && k < n && j != k ==> #[trigger] ticket_at(n, j) != #[trigger] ticket_at(n, k),
        forall|t: usize| #[trigger] issued(n, t) <==> t < n,
        forall|k: nat| k >= n ==> #[trigger] ticket_at(n, k) is None,
{
    assert forall|k: nat| #[trigger] ticket_at(n, k) == if k < n {
        Some((n - 1 - k) as usize)
    } else {
        None
    } by {
        lemma_count_after(n, k);
    }
    assert forall|t: usize| #[trigger] issued(n, t) <==> t < n by {
        if t < n {
            assert(ticket_at(n, (n - 1 - t) as nat) == Some(t));
        }
    }
}

} // verus!
