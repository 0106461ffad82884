//! Partitioning of the port range across the worker pool.
//!
//! The coordinator launches one worker per offset in `[0, stride)`, where
//! `stride` is the worker count.  The worker at `offset` probes the ports
//! `start + offset`, `start + offset + stride`, ... below `end`.  Together
//! the workers cover every port of `[start, end)` exactly once.

use vstd::prelude::*;

verus! {

use vstd::arithmetic::div_mod::{
    lemma_fundamental_div_mod,
    lemma_div_pos_is_pos,
    lemma_mod_bound,
    lemma_mod_multiples_vanish,
    lemma_small_mod,
};

/// The port `p` falls to the worker at `offset` when the range
/// `[start, end)` is dealt out with a stride equal to the worker count.
pub open spec fn is_assigned(start: u16, end: u16, stride: u16, offset: u16, p: u16) -> bool {
    &&& start <= p < end
    &&& (p - start) % (stride as int) == offset as int
}

/// The ports the worker at `offset` must probe, in ascending order:
/// `start + offset`, then every `stride`-th port below `end`.
///
/// The result holds exactly the ports of `[start, end)` whose distance
/// from `start` leaves remainder `offset` modulo `stride`.
pub fn ports_for_worker(offset: u16, start: u16, end: u16, stride: u16) -> (r: Vec<u16>)
    requires
        1 <= stride,
        offset < stride,
    ensures
        forall|k: int| 0 <= k < r@.len() ==> r@[k] == start + offset + k * stride,
        forall|p: u16| r@.contains(p) <==> is_assigned(start, end, stride, offset, p),
        start >= end ==> r@.len() == 0,
{
    let mut r: Vec<u16> = Vec::new();
    let mut port: u32 = start as u32 + offset as u32;
    let end32: u32 = end as u32;
    proof {
        assert((r@.len() as int) * (stride as int) == 0) by (nonlinear_arith)
            requires
                r@.len() == 0,
        ;
    }
    while port < end32
        invariant
            1 <= stride,
            offset < stride,
            end32 == end,
            port as int == start as int + offset as int + (r@.len() as int) * (stride as int),
            forall|k: int| 0 <= k < r@.len() ==> r@[k] == start + offset + k * stride,
            forall|k: int| 0 <= k < r@.len() ==> r@[k] < end,
        decreases end32 as int + stride as int - port as int,
    {
        assert(port < 65536);
        r.push(port as u16);
        port = port + stride as u32;
        proof {
            let n1 = r@.len() as int;
            assert(n1 * (stride as int) == (n1 - 1) * (stride as int) + (stride as int))
                by (nonlinear_arith);
        }
    }
    proof {
        if start >= end && r@.len() > 0 {
            assert((0int) * (stride as int) == 0) by (nonlinear_arith);
            assert(r@[0] == start + offset + 0 * stride);
            assert(false);
        }
        let n = r@.len() as int;
        assert forall|p: u16| r@.contains(p) <==> is_assigned(start, end, stride, offset, p) by {
            if r@.contains(p) {
                let k = choose|k: int| 0 <= k < n && r@[k] == p;
                assert(r@[k] == start + offset + k * stride);
                assert(k * stride >= 0) by (nonlinear_arith)
                    requires
                        k >= 0,
                        stride >= 1,
                ;
                assert(p == start + offset + k * stride);
                lemma_mod_multiples_vanish(k, offset as int, stride as int);
                assert((stride as int) * k + offset as int == p - start);
                lemma_small_mod(offset as nat, stride as nat);
                assert(is_assigned(start, end, stride, offset, p));
            }
            if is_assigned(start, end, stride, offset, p) {
                let d = p - start;
                let q = d / (stride as int);
                lemma_fundamental_div_mod(d, stride as int);
                lemma_div_pos_is_pos(d, stride as int);
                assert(d == stride * q + offset);
                assert(p < start + offset + n * stride);
                assert(q * stride < n * stride);
                assert(q < n) by (nonlinear_arith)
                    requires
                        q * stride < n * stride,
                        stride >= 1,
                ;
                assert(r@[q] == start + offset + q * stride);
                assert(r@[q] == p);
                assert(r@.contains(p));
            }
        }
    }
    r
}

/// Every port of `[start, end)` is probed by exactly one worker: the one
/// whose offset is the distance from `start` taken modulo the stride.
/// Hence the workers' assignments are pairwise disjoint and their union
/// is the whole range — no port is probed twice, none is skipped.
pub proof fn lemma_ports_partition(start: u16, end: u16, stride: u16, p: u16)
    requires
        1 <= stride,
        start <= p < end,
    ensures
        ((p - start) % (stride as int)) < stride,
        is_assigned(start, end, stride, ((p - start) % (stride as int)) as u16, p),
        forall|i: u16, j: u16|
            is_assigned(start, end, stride, i, p) && is_assigned(start, end, stride, j, p)
                ==> i == j,
{
    lemma_mod_bound(p - start, stride as int);
}

} // verus!
