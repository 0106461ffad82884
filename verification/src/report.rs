//! Aggregation of the workers' results into the final report.
//!
//! The workers hand their discovered ports to the coordinator in an order
//! set by network timing and thread scheduling.  The coordinator sorts what
//! it collected; the sorted report is the run's one deterministic output.

use vstd::prelude::*;

verus! {

use vstd::seq_lib::group_to_multiset_ensures;
use vstd::multiset::group_multiset_axioms;

/// The sequence is in ascending order.
pub open spec fn sorted(s: Seq<u16>) -> bool {
    forall|i: int, j: int| 0 <= i <= j < s.len() ==> s[i] <= s[j]
}

/// Place `x` into the sorted vector `r`, keeping it sorted.
fn insert_sorted(r: &mut Vec<u16>, x: u16)
    requires
        sorted(old(r)@),
    ensures
        final(r)@.to_multiset() == old(r)@.to_multiset().insert(x),
        sorted(final(r)@),
        final(r)@.len() == old(r)@.len() + 1,
{
    let mut j: usize = r.len();
    while j > 0 && r[j - 1] > x
        invariant
            j <= r@.len(),
            *r == *old(r),
            forall|k: int| j <= k < r@.len() ==> r@[k] > x,
        decreases j,
    {
        j = j - 1;
    }
    r.insert(j, x);
    proof {
        broadcast use group_to_multiset_ensures, group_multiset_axioms;

        let t = r@;
        let s = old(r)@;
        let ji = j as int;
        assert(t.remove(ji) =~= s);
        assert(t[ji] == x);
        assert(t.to_multiset().remove(x) =~= s.to_multiset());
        assert(t.to_multiset().contains(x)) by {
            assert(t[ji] == x);
            assert(t.contains(x));
        }
        assert(t.to_multiset() =~= s.to_multiset().insert(x));
        assert(sorted(t)) by {
            assert(forall|k: int| 0 <= k < ji ==> t[k] == s[k]);
            assert(forall|k: int| ji < k < t.len() ==> t[k] == s[k - 1]);
            assert(ji > 0 ==> s[ji - 1] <= x);
        }
    }
}

/// Sort the ports the workers discovered into the final report: the same
/// collection of ports, in ascending order.  No port found is dropped and
/// none appears that was not found; when nothing was found the report is
/// empty.
pub fn build_report(found: &Vec<u16>) -> (r: Vec<u16>)
    ensures
        r@.to_multiset() == found@.to_multiset(),
        sorted(r@),
        r@.len() == found@.len(),
{
    let mut r: Vec<u16> = Vec::new();
    let mut idx: usize = 0;
    proof {
        assert(r@ =~= found@.take(0));
    }
    while idx < found.len()
        invariant
            idx <= found@.len(),
            r@.to_multiset() == found@.take(idx as int).to_multiset(),
            sorted(r@),
            r@.len() == idx,
        decreases found@.len() - idx,
    {
        insert_sorted(&mut r, found[idx]);
        proof {
            broadcast use group_to_multiset_ensures;

            let i = idx as int;
            assert(found@.take(i + 1).drop_last() =~= found@.take(i));
            assert(found@.take(i + 1) =~= found@.take(i).push(found@[i]));
        }
        idx = idx + 1;
    }
    proof {
        assert(found@.take(found@.len() as int) =~= found@);
    }
    r
}

/// A report built from distinct ports that all lie in `[start, end)` — as
/// the ports found by a scan are, since each port is probed by exactly one
/// worker — is a strictly ascending sequence of distinct port numbers, each
/// a member of `[start, end)`.
pub proof fn lemma_report_strictly_ascending(found: Seq<u16>, report: Seq<u16>, start: u16, end: u16)
    requires
        report.to_multiset() == found.to_multiset(),
        sorted(report),
        found.no_duplicates(),
        forall|k: int| 0 <= k < found.len() ==> start <= #[trigger] found[k] < end,
    ensures
        report.no_duplicates(),
        forall|i: int, j: int| 0 <= i < j < report.len() ==> report[i] < report[j],
        forall|k: int| 0 <= k < report.len() ==> start <= #[trigger] report[k] < end,
{
    broadcast use group_to_multiset_ensures, group_multiset_axioms;

    found.lemma_multiset_has_no_duplicates();
    report.lemma_multiset_has_no_duplicates_conv();
    assert forall|k: int| 0 <= k < report.len() implies start <= #[trigger] report[k] < end by {
        assert(report.contains(report[k]));
        assert(found.to_multiset().count(report[k]) > 0);
        assert(found.contains(report[k]));
        let m = choose|m: int| 0 <= m < found.len() && found[m] == report[k];
        assert(start <= found[m] < end);
    }
}

/// The report is canonical: two sorted sequences holding the same ports
/// are one and the same.  Hence the report depends only on which ports
/// were found — not on the order the workers delivered them in, nor on
/// which worker found which port — and scanning a host whose set of open
/// ports has not changed yields the same report again.
pub proof fn lemma_report_unique(s1: Seq<u16>, s2: Seq<u16>)
    requires
        sorted(s1),
        sorted(s2),
        s1.to_multiset() == s2.to_multiset(),
    ensures
        s1 == s2,
    decreases s1.len(),
{
    broadcast use group_to_multiset_ensures, group_multiset_axioms;

    if s1.len() == 0 {
        assert(s2.to_multiset().len() == 0);
        assert(s1 =~= s2);
    } else {
        assert(s1.len() == s1.to_multiset().len());
        assert(s2.len() == s2.to_multiset().len());
        assert(s1.contains(s1[0]));
        assert(s2.to_multiset().count(s1[0]) > 0);
        assert(s2.contains(s1[0]));
        let a = choose|a: int| 0 <= a < s2.len() && s2[a] == s1[0];
        assert(s2[0] <= s1[0]);
        assert(s2.contains(s2[0]));
        assert(s1.to_multiset().count(s2[0]) > 0);
        assert(s1.contains(s2[0]));
        let b = choose|b: int| 0 <= b < s1.len() && s1[b] == s2[0];
        assert(s1[0] <= s2[0]);
        assert(s1[0] == s2[0]);
        let t1 = s1.remove(0);
        let t2 = s2.remove(0);
        assert(t1.to_multiset() =~= s1.to_multiset().remove(s1[0]));
        assert(t2.to_multiset() =~= s2.to_multiset().remove(s2[0]));
        assert(forall|k: int| 0 <= k < t1.len() ==> t1[k] == s1[k + 1]);
        assert(forall|k: int| 0 <= k < t2.len() ==> t2[k] == s2[k + 1]);
        assert(sorted(t1));
        assert(sorted(t2));
        lemma_report_unique(t1, t2);
        assert forall|i: int| 0 <= i < s1.len() implies s1[i] == s2[i] by {
            if i > 0 {
                assert(s1[i] == t1[i - 1]);
                assert(s2[i] == t2[i - 1]);
            }
        }
        assert(s1 =~= s2);
    }
}

} // verus!
