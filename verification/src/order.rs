//! Sorting with a proof that nothing is lost.

use vstd::prelude::*;

use crate::waveform::signal;

verus! {

/// The entries of `s` in ascending order.
pub open spec fn in_order(s: Seq<u64>) -> Seq<u64> {
    choose|r: Seq<u64>| signal::sorted(r) && r.to_multiset() == s.to_multiset()
}

/// A sorted arrangement of `s` is the one in ascending order.
pub proof fn lemma_in_order_unique(s: Seq<u64>, r: Seq<u64>)
    requires
        signal::sorted(r),
        r.to_multiset() == s.to_multiset(),
    ensures
        r == in_order(s),
        r.len() == s.len(),
{
    broadcast use vstd::seq_lib::group_to_multiset_ensures;

    let leq = |a: u64, b: u64| a <= b;
    let c = in_order(s);
    assert(signal::sorted(c) && c.to_multiset() == s.to_multiset());
    vstd::seq_lib::lemma_sorted_unique(r, c, leq);
    assert(r.len() == r.to_multiset().len());
    assert(s.len() == s.to_multiset().len());
}

/// Every sequence has a sorted arrangement.
pub proof fn lemma_in_order_exists(s: Seq<u64>)
    ensures
        signal::sorted(in_order(s)),
        in_order(s).to_multiset() == s.to_multiset(),
        in_order(s).len() == s.len(),
{
    let leq = |a: u64, b: u64| a <= b;
    let r = s.sort_by(leq);
    s.lemma_sort_by_ensures(leq);
    assert forall|i: int, j: int| 0 <= i <= j < r.len() implies r[i] <= r[j] by {
        if i < j {
            assert(leq(r[i], r[j]));
        }
    }
    lemma_in_order_unique(s, r);
}

/// Merges two sorted vectors.
fn merge(a: &Vec<u64>, b: &Vec<u64>) -> (out: Vec<u64>)
    requires
        signal::sorted(a@),
        signal::sorted(b@),
    ensures
        signal::sorted(out@),
        out@.to_multiset() == a@.to_multiset().add(b@.to_multiset()),
{
    broadcast use vstd::seq_lib::group_to_multiset_ensures;

    let mut out: Vec<u64> = Vec::new();
    let mut i: usize = 0;
    let mut j: usize = 0;
    proof {
        assert(a@.take(0).to_multiset() =~= vstd::multiset::Multiset::empty());
        assert(b@.take(0).to_multiset() =~= vstd::multiset::Multiset::empty());
        assert(out@.to_multiset() =~= a@.take(0).to_multiset().add(b@.take(0).to_multiset()));
    }
    while i < a.len() || j < b.len()
        invariant
            i <= a@.len(),
            j <= b@.len(),
            signal::sorted(a@),
            signal::sorted(b@),
            signal::sorted(out@),
            forall|k: int, l: int| 0 <= k < out@.len() && i <= l < a@.len() ==> out@[k] <= a@[l],
            forall|k: int, l: int| 0 <= k < out@.len() && j <= l < b@.len() ==> out@[k] <= b@[l],
            out@.to_multiset() == a@.take(i as int).to_multiset().add(
                b@.take(j as int).to_multiset(),
            ),
        decreases a@.len() - i + b@.len() - j,
    {
        let ghost before = out@;
        if j >= b.len() || (i < a.len() && a[i] <= b[j]) {
            out.push(a[i]);
            proof {
                assert(a@.take(i + 1) =~= a@.take(i as int).push(a@[i as int]));
                vstd::seq_lib::to_multiset_build(before, a@[i as int]);
                vstd::seq_lib::to_multiset_build(a@.take(i as int), a@[i as int]);
                assert(out@.to_multiset() =~= a@.take(i + 1).to_multiset().add(
                    b@.take(j as int).to_multiset(),
                ));
            }
            i = i + 1;
        } else {
            out.push(b[j]);
            proof {
                assert(b@.take(j + 1) =~= b@.take(j as int).push(b@[j as int]));
                vstd::seq_lib::to_multiset_build(before, b@[j as int]);
                vstd::seq_lib::to_multiset_build(b@.take(j as int), b@[j as int]);
                assert(out@.to_multiset() =~= a@.take(i as int).to_multiset().add(
                    b@.take(j + 1).to_multiset(),
                ));
            }
            j = j + 1;
        }
    }
    assert(a@.take(i as int) =~= a@);
    assert(b@.take(j as int) =~= b@);
    out
}

/// A copy of `v` in ascending order.
pub fn sorted_copy(v: &[u64]) -> (out: Vec<u64>)
    ensures
        out@ == in_order(v@),
        signal::sorted(out@),
        out@.to_multiset() == v@.to_multiset(),
        out@.len() == v@.len(),
    decreases v@.len(),
{
    broadcast use vstd::seq_lib::group_to_multiset_ensures;

    if v.len() <= 1 {
        let mut out: Vec<u64> = Vec::new();
        if v.len() == 1 {
            out.push(v[0]);
        }
        assert(out@ =~= v@);
        proof {
            lemma_in_order_unique(v@, out@);
        }
        out
    } else {
        let mid: usize = v.len() / 2;
        let (left, right) = v.split_at(mid);
        let a = sorted_copy(left);
        let b = sorted_copy(right);
        let out = merge(&a, &b);
        proof {
            assert(left@ + right@ =~= v@);
            vstd::seq_lib::lemma_multiset_commutative(left@, right@);
            lemma_in_order_unique(v@, out@);
        }
        out
    }
}

} // verus!
