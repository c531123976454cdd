//! An atomic partitioner: it cuts a buffer into consecutive chunks of a
//! fixed size (the last one may be shorter) and hands each chunk out once,
//! with its index, to whichever caller wins it.

use crate::cas::{chunk_end, fetch_update_seq_cst, StepRule};
use std::sync::atomic::AtomicUsize;
use vstd::prelude::*;
use vstd::arithmetic::div_mod::{lemma_fundamental_div_mod, lemma_fundamental_div_mod_converse, lemma_mod_pos_bound};
use vstd::arithmetic::mul::lemma_mul_inequality;
use vstd::slice::slice_subrange;

verus! {

/// Where the cursor of a partitioner over `len` elements in chunks of `step`
/// goes from `cursor`, or `None` once the buffer is used up.
pub open spec fn advance_spec(cursor: usize, len: usize, step: usize) -> Option<usize> {
    StepRule::Advance { len, step }.next_spec(cursor)
}

/// The elements of the chunk of `buf` that starts at `start`.
pub open spec fn region<T>(buf: Seq<T>, step: usize, start: usize) -> Seq<T> {
    buf.subrange(start as int, chunk_end(start as int, buf.len() as int, step as int))
}

/// The grant that the winner of the cursor at `start` receives: the chunk's
/// index and the elements `[start, end)`.
pub fn grant<'a, T>(slice: &'a [T], step: usize, start: usize) -> (r: (usize, &'a [T]))
    requires
        step > 0,
        start < slice@.len(),
    ensures
        r.0 == start / step,
        r.1@ == region(slice@, step, start),
{
    let len = slice.len();
    let end = if len - start <= step {
        len
    } else {
        start + step
    };
    (start / step, slice_subrange(slice, start, end))
}

/// A partitioner over a borrowed buffer, safe to share between threads.
///
/// It takes the buffer by mutable borrow, so that no other code can reach
/// the buffer while chunks are being handed out. A chunk is granted as a
/// view of its elements. Every request moves the cursor by `cursor_rule`
/// through std's atomic `fetch_update`. Given the atomicity of that update,
/// `lemma_chunks_tile` shows that no two grants overlap. A caller that
/// writes through the elements of its chunk (atomics, cells) is then the
/// only writer of them.
pub struct AtomicChunksMut<'a, T> {
    slice: &'a [T],
    step: usize,
    next: AtomicUsize,
}

impl<'a, T> AtomicChunksMut<'a, T> {
    /// The elements of the buffer.
    pub closed spec fn buffer(&self) -> Seq<T> {
        self.slice@
    }

    /// The chunk size.
    pub closed spec fn step_size(&self) -> usize {
        self.step
    }

    /// The chunk size is positive.
    #[verifier::type_invariant]
    spec fn inv(&self) -> bool {
        self.step > 0
    }

    /// A partitioner that hands out the chunks of `slice` of `step` elements
    /// each, from the start of the buffer.
    pub fn new(slice: &'a mut [T], step: usize) -> (r: AtomicChunksMut<'a, T>)
        requires
            step > 0,
            old(slice)@.len() > 0,
        ensures
            r.buffer() == old(slice)@,
            r.step_size() == step,
    {
        AtomicChunksMut { slice, step, next: AtomicUsize::new(0) }
    }

    /// The step by which every request moves this partitioner's cursor.
    pub fn cursor_rule(&self) -> (r: StepRule)
        ensures
            r == (StepRule::Advance { len: self.buffer().len() as usize, step: self.step_size() }),
    {
        StepRule::Advance { len: self.slice.len(), step: self.step }
    }

    /// Hands out the next chunk with its index, or `None` once the whole
    /// buffer has been handed out. The chunk starts where the winning atomic
    /// update found the cursor and ends where it left it.
    pub fn next(&self) -> (r: Option<(usize, &'a [T])>)
        ensures
            match r {
                Some((i, s)) => exists|p: usize|
                    p < self.buffer().len() && i == p / self.step_size() && s@ == #[trigger] region(
                        self.buffer(),
                        self.step_size(),
                        p,
                    ),
                None => true,
            },
    {
        proof {
            use_type_invariant(self);
        }
        let rule = self.cursor_rule();
        match fetch_update_seq_cst(&self.next, rule) {
            Ok(p) => {
                let g = grant(self.slice, self.step, p);
                assert(g.1@ == region(self.buffer(), self.step_size(), p));
                Some(g)
            },
            Err(_) => None,
        }
    }
}

/// The cursor after `k` successful requests on a partitioner over `len`
/// elements in chunks of `step` (a request on an exhausted partitioner
/// leaves it as it is).
pub open spec fn cursor_after(len: usize, step: usize, k: nat) -> usize
    decreases k,
{
    if k == 0 {
        0
    } else {
        let c = cursor_after(len, step, (k - 1) as nat);
        match advance_spec(c, len, step) {
            Some(d) => d,
            None => c,
        }
    }
}

/// The number of chunks of `step` elements that cover `len` elements.
pub open spec fn num_chunks(len: usize, step: usize) -> nat {
    ((len + step - 1) / (step as int)) as nat
}

proof fn lemma_cursor_after(len: usize, step: usize, k: nat)
    requires
        step > 0,
    ensures
        cursor_after(len, step, k) == if k * step <= len {
            k * step
        } else {
            len as int
        },
    decreases k,
{
    if k > 0 {
        let j = (k - 1) as nat;
        lemma_cursor_after(len, step, j);
        assert(k * step == j * step + step) by (nonlinear_arith)
            requires
                k == j + 1,
        ;
        let c = cursor_after(len, step, j);
        if j * step < len {
            assert(c == j * step);
            assert(advance_spec(c, len, step) == Some(
                chunk_end(c as int, len as int, step as int) as usize,
            ));
        } else {
            assert(c == len);
        }
    } else {
        assert(k * step == 0) by (nonlinear_arith)
            requires
                k == 0,
        ;
    }
}

proof fn lemma_num_chunks(len: usize, step: usize)
    requires
        step > 0,
    ensures
        num_chunks(len, step) * step >= len,
        num_chunks(len, step) > 0 ==> (num_chunks(len, step) - 1) * step < len,
        len > 0 ==> num_chunks(len, step) > 0,
        num_chunks(len, step) > 0 ==> len - (num_chunks(len, step) - 1) * step == if len % step
            == 0 {
            step as int
        } else {
            (len % step) as int
        },
{
    let x = len + step - 1;
    let q = (x as int) / (step as int);
    let r = x % (step as int);
    lemma_fundamental_div_mod(x, step as int);
    lemma_mod_pos_bound(x, step as int);
    assert(q * step == step * q) by (nonlinear_arith);
    assert((q - 1) * step == q * step - step) by (nonlinear_arith);
    if len > 0 {
        assert(q > 0) by (nonlinear_arith)
            requires
                x == step * q + r,
                r < step,
                x >= step,
        ;
    }
    lemma_fundamental_div_mod(len as int, step as int);
    lemma_mod_pos_bound(len as int, step as int);
    let a = (len as int) / (step as int);
    let b = (len as int) % (step as int);
    assert(a * step == step * a) by (nonlinear_arith);
    assert((a - 1) * step == a * step - step) by (nonlinear_arith);
    assert((a + 1) * step == a * step + step) by (nonlinear_arith);
    if b == 0 {
        lemma_fundamental_div_mod_converse(x, step as int, a, step - 1int);
    } else {
        lemma_fundamental_div_mod_converse(x, step as int, a + 1, b - 1);
    }
}

proof fn lemma_cursor_closed(len: usize, step: usize, k: nat)
    requires
        step > 0,
    ensures
        cursor_after(len, step, k) == if k < num_chunks(len, step) {
            k * step
        } else {
            len as int
        },
{
    let n = num_chunks(len, step);
    lemma_num_chunks(len, step);
    lemma_cursor_after(len, step, k);
    if k < n {
        lemma_mul_inequality(k as int, n - 1, step as int);
    } else {
        lemma_mul_inequality(n as int, k as int, step as int);
    }
}

/// Every element of the buffer lies in the chunk whose index is its
/// position divided by `step`. That chunk is one of the `num_chunks`
/// grants, from the start of the buffer up to `len`.
pub proof fn lemma_chunk_of(len: usize, step: usize, x: usize)
    requires
        step > 0,
        x < len,
    ensures
        x / step < num_chunks(len, step),
        cursor_after(len, step, (x / step) as nat) <= x,
        x < cursor_after(len, step, (x / step + 1) as nat),
{
    let n = num_chunks(len, step);
    lemma_num_chunks(len, step);
    let q = (x as int) / (step as int);
    lemma_fundamental_div_mod(x as int, step as int);
    lemma_mod_pos_bound(x as int, step as int);
    assert(q * step == step * q) by (nonlinear_arith);
    assert((q + 1) * step == q * step + step) by (nonlinear_arith);
    if q >= n {
        lemma_mul_inequality(n as int, q, step as int);
    }
    lemma_cursor_after(len, step, q as nat);
    lemma_cursor_after(len, step, (q + 1) as nat);
}

/// Takes the successful requests on a partitioner over `len` elements in
/// chunks of `step` as one sequence of steps of its cursor rule from 0. That
/// they form one sequence is the atomicity of std's `fetch_update`, which is
/// relied on, not proved here. The `k`-th of them is granted chunk `k`, `[k * step, end)`. There are
/// `num_chunks` grants. Each starts where the one before it ended. They
/// run in increasing order, so no two overlap. The first starts at 0 and the
/// last ends at `len`, so together they cover the buffer. Each is one step
/// long but the last, which holds `len % step` elements where that is not
/// zero. Every request after them finds the partitioner exhausted, for good.
#[verifier::rlimit(40)]
pub proof fn lemma_chunks_tile(len: usize, step: usize)
    requires
        step > 0,
    ensures
        cursor_after(len, step, 0) == 0,
        cursor_after(len, step, num_chunks(len, step)) == len,
        forall|k: nat|
            k < num_chunks(len, step) ==> {
                &&& #[trigger] cursor_after(len, step, k) == k * step
                &&& cursor_after(len, step, k) / step == k
                &&& advance_spec(cursor_after(len, step, k), len, step) == Some(
                    cursor_after(len, step, k + 1),
                )
                &&& cursor_after(len, step, k) < cursor_after(len, step, k + 1)
            },
        forall|j: nat, k: nat|
            j < k ==> #[trigger] cursor_after(len, step, j + 1) <= #[trigger] cursor_after(
                len,
                step,
                k,
            ),
        forall|k: nat|
            k + 1 < num_chunks(len, step) ==> #[trigger] cursor_after(len, step, k + 1)
                - cursor_after(len, step, k) == step,
        num_chunks(len, step) > 0 ==> len - cursor_after(
            len,
            step,
            (num_chunks(len, step) - 1) as nat,
        ) == if len % step == 0 {
            step as int
        } else {
            (len % step) as int
        },
        forall|k: nat|
            k >= num_chunks(len, step) ==> #[trigger] cursor_after(len, step, k) == len
                && advance_spec(cursor_after(len, step, k), len, step) is None,
{
    let n = num_chunks(len, step);
    lemma_num_chunks(len, step);
    lemma_cursor_closed(len, step, 0);
    lemma_cursor_closed(len, step, n);
    assert(0 * step == 0) by (nonlinear_arith);
    assert forall|k: nat| k < n implies {
        &&& #[trigger] cursor_after(len, step, k) == k * step
        &&& cursor_after(len, step, k) / step == k
        &&& advance_spec(cursor_after(len, step, k), len, step) == Some(
            cursor_after(len, step, k + 1),
        )
        &&& cursor_after(len, step, k) < cursor_after(len, step, k + 1)
    } by {
        lemma_cursor_closed(len, step, k);
        lemma_cursor_after(len, step, k + 1);
        lemma_mul_inequality(k as int, n - 1, step as int);
        lemma_fundamental_div_mod_converse(k * step, step as int, k as int, 0);
        assert((k + 1) * step == k * step + step) by (nonlinear_arith);
    }
    assert forall|j: nat, k: nat| j < k implies #[trigger] cursor_after(len, step, j + 1)
        <= #[trigger] cursor_after(len, step, k) by {
        lemma_cursor_after(len, step, j + 1);
        lemma_cursor_after(len, step, k);
        lemma_mul_inequality((j + 1) as int, k as int, step as int);
    }
    assert forall|k: nat| k + 1 < n implies #[trigger] cursor_after(len, step, k + 1) - cursor_after(
        len,
        step,
        k,
    ) == step by {
        lemma_cursor_closed(len, step, k);
        lemma_cursor_closed(len, step, k + 1);
        assert((k + 1) * step == k * step + step) by (nonlinear_arith);
    }
    if n > 0 {
        lemma_cursor_closed(len, step, (n - 1) as nat);
    }
    assert forall|k: nat| k >= n implies #[trigger] cursor_after(len, step, k) == len
        && advance_spec(cursor_after(len, step, k), len, step) is None by {
        lemma_cursor_closed(len, step, k);
    }
}

/// No chunk index is granted twice: the grants of two different successful
/// requests carry different indices and different starts.
pub proof fn lemma_chunk_indices_distinct(len: usize, step: usize)
    requires
        step > 0,
    ensures
        forall|j: nat, k: nat|
            j < num_chunks(len, step) && k < num_chunks(len, step) && j != k ==> {
                &&& #[trigger] cursor_after(len, step, j) / step != #[trigger] cursor_after(
                    len,
                    step,
                    k,
                ) / step
                &&& cursor_after(len, step, j) != cursor_after(len, step, k)
            },
{
    lemma_chunks_tile(len, step);
}

} // verus!
