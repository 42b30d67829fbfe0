//! Sorting retained elements by the element order.
//!
//! Quantile selection works on a sorted copy of the retained elements.  The
//! sort is a merge sort, proved to return exactly the sequence that
//! `Seq::sort_by` describes under the element order, so every caller can
//! speak of "the sorted sequence of retained elements" as a single value.

use crate::order::{
    le32, le32_exec, le64, le64_exec, lemma_ord32_total_ordering, lemma_ord64_total_ordering,
    lemma_sorted_index_le32, lemma_sorted_index_le64, lemma_sorted_push, ord32, ord64,
};
use vstd::prelude::*;
use vstd::relations::sorted_by;
use vstd::multiset::group_multiset_axioms;
use vstd::relations::total_ordering;
use vstd::seq_lib::{group_to_multiset_ensures, lemma_multiset_commutative, lemma_sorted_unique};

verus! {

/// Sorts 64-bit element patterns by the element order.
#[verifier::loop_isolation(false)]
pub fn sort64(v: &Vec<u64>) -> (r: Vec<u64>)
    ensures
        r@ == v@.sort_by(ord64()),
        r@.len() == v@.len(),
    decreases v@.len(),
{
    broadcast use group_to_multiset_ensures, group_multiset_axioms;

    proof {
        lemma_ord64_total_ordering();
        v@.lemma_sort_by_ensures(ord64());
    }
    let n = v.len();
    if n <= 1 {
        let mut out: Vec<u64> = Vec::new();
        if n == 1 {
            out.push(v[0]);
        }
        proof {
            assert(out@ =~= v@);
            assert(v@.sort_by(ord64()) =~= v@) by {
                lemma_sorted_unique(v@, v@.sort_by(ord64()), ord64());
            }
        }
        return out;
    }
    let mid = n / 2;
    let mut left: Vec<u64> = Vec::new();
    let mut right: Vec<u64> = Vec::new();
    let mut i: usize = 0;
    while i < mid
        invariant
            i <= mid <= n == v@.len(),
            left@ == v@.subrange(0, i as int),
        decreases mid - i,
    {
        left.push(v[i]);
        proof {
            assert(left@ =~= v@.subrange(0, i + 1 as int));
        }
        i = i + 1;
    }
    let mut j: usize = mid;
    while j < n
        invariant
            mid <= j <= n == v@.len(),
            right@ == v@.subrange(mid as int, j as int),
        decreases n - j,
    {
        right.push(v[j]);
        proof {
            assert(right@ =~= v@.subrange(mid as int, j + 1 as int));
        }
        j = j + 1;
    }
    proof {
        assert(v@ =~= left@ + right@);
        lemma_multiset_commutative(left@, right@);
    }
    let ls = sort64(&left);
    let rs = sort64(&right);
    proof {
        left@.lemma_sort_by_ensures(ord64());
        right@.lemma_sort_by_ensures(ord64());
    }
    let mut out: Vec<u64> = Vec::new();
    let mut a: usize = 0;
    let mut b: usize = 0;
    while a < ls.len() || b < rs.len()
        invariant
            total_ordering(ord64()),
            a <= ls@.len(),
            b <= rs@.len(),
            sorted_by(ls@, ord64()),
            sorted_by(rs@, ord64()),
            sorted_by(out@, ord64()),
            out@.len() == a + b,
            out@.to_multiset() == ls@.subrange(0, a as int).to_multiset().add(
                rs@.subrange(0, b as int).to_multiset(),
            ),
            forall|t: int| a <= t < ls@.len() && out@.len() > 0 ==> le64(out@.last(), ls@[t]),
            forall|t: int| b <= t < rs@.len() && out@.len() > 0 ==> le64(out@.last(), rs@[t]),
        decreases ls@.len() - a + rs@.len() - b,
    {
        let ghost out_old = out@;
        let ghost ta = a as int;
        let ghost tb = b as int;
        let take_left: bool = if b == rs.len() {
            true
        } else if a == ls.len() {
            false
        } else {
            le64_exec(ls[a], rs[b])
        };
        if take_left {
            let x = ls[a];
            proof {
                lemma_sorted_push(out@, x, ord64());
            }
            out.push(x);
            a = a + 1;
            proof {
                assert(out@ == out_old.push(x));
                assert(out_old.push(x).to_multiset() =~= out_old.to_multiset().insert(x));
                assert(ls@.subrange(0, ta + 1) =~= ls@.subrange(0, ta).push(x));
                assert(ls@.subrange(0, ta).push(x).to_multiset() =~= ls@.subrange(
                    0,
                    ta,
                ).to_multiset().insert(x));
                assert(out@.to_multiset() =~= ls@.subrange(0, ta + 1).to_multiset().add(
                    rs@.subrange(0, tb).to_multiset(),
                ));
                assert(out@.last() == x);
                assert forall|t: int| ta + 1 <= t < ls@.len() implies le64(x, ls@[t]) by {
                    lemma_sorted_index_le64(ls@, ta, t);
                }
                assert forall|t: int| tb <= t < rs@.len() implies le64(x, rs@[t]) by {
                    assert(le64(x, rs@[tb]));
                    lemma_sorted_index_le64(rs@, tb, t);
                }
            }
        } else {
            let x = rs[b];
            proof {
                assert(le64(rs@[tb], ls@[ta]) || ta >= ls@.len()) by {
                    lemma_ord64_total_ordering();
                }
                lemma_sorted_push(out@, x, ord64());
            }
            out.push(x);
            b = b + 1;
            proof {
                assert(out@ == out_old.push(x));
                assert(out_old.push(x).to_multiset() =~= out_old.to_multiset().insert(x));
                assert(rs@.subrange(0, tb + 1) =~= rs@.subrange(0, tb).push(x));
                assert(rs@.subrange(0, tb).push(x).to_multiset() =~= rs@.subrange(
                    0,
                    tb,
                ).to_multiset().insert(x));
                assert(out@.to_multiset() =~= ls@.subrange(0, ta).to_multiset().add(
                    rs@.subrange(0, tb + 1).to_multiset(),
                ));
                assert(out@.last() == x);
                assert forall|t: int| tb + 1 <= t < rs@.len() implies le64(x, rs@[t]) by {
                    lemma_sorted_index_le64(rs@, tb, t);
                }
                assert forall|t: int| ta <= t < ls@.len() implies le64(x, ls@[t]) by {
                    assert(le64(x, ls@[ta]));
                    lemma_sorted_index_le64(ls@, ta, t);
                }
            }
        }
    }
    proof {
        assert(ls@.subrange(0, ls@.len() as int) =~= ls@);
        assert(rs@.subrange(0, rs@.len() as int) =~= rs@);
        assert(out@.to_multiset() == v@.to_multiset());
        lemma_sorted_unique(out@, v@.sort_by(ord64()), ord64());
        assert(out@ =~= v@.sort_by(ord64()));
        assert(out@.len() == v@.len());
    }
    out
}

/// Sorts 32-bit element patterns by the element order.
#[verifier::loop_isolation(false)]
pub fn sort32(v: &Vec<u32>) -> (r: Vec<u32>)
    ensures
        r@ == v@.sort_by(ord32()),
        r@.len() == v@.len(),
    decreases v@.len(),
{
    broadcast use group_to_multiset_ensures, group_multiset_axioms;

    proof {
        lemma_ord32_total_ordering();
        v@.lemma_sort_by_ensures(ord32());
    }
    let n = v.len();
    if n <= 1 {
        let mut out: Vec<u32> = Vec::new();
        if n == 1 {
            out.push(v[0]);
        }
        proof {
            assert(out@ =~= v@);
            assert(v@.sort_by(ord32()) =~= v@) by {
                lemma_sorted_unique(v@, v@.sort_by(ord32()), ord32());
            }
        }
        return out;
    }
    let mid = n / 2;
    let mut left: Vec<u32> = Vec::new();
    let mut right: Vec<u32> = Vec::new();
    let mut i: usize = 0;
    while i < mid
        invariant
            i <= mid <= n == v@.len(),
            left@ == v@.subrange(0, i as int),
        decreases mid - i,
    {
        left.push(v[i]);
        proof {
            assert(left@ =~= v@.subrange(0, i + 1 as int));
        }
        i = i + 1;
    }
    let mut j: usize = mid;
    while j < n
        invariant
            mid <= j <= n == v@.len(),
            right@ == v@.subrange(mid as int, j as int),
        decreases n - j,
    {
        right.push(v[j]);
        proof {
            assert(right@ =~= v@.subrange(mid as int, j + 1 as int));
        }
        j = j + 1;
    }
    proof {
        assert(v@ =~= left@ + right@);
        lemma_multiset_commutative(left@, right@);
    }
    let ls = sort32(&left);
    let rs = sort32(&right);
    proof {
        left@.lemma_sort_by_ensures(ord32());
        right@.lemma_sort_by_ensures(ord32());
    }
    let mut out: Vec<u32> = Vec::new();
    let mut a: usize = 0;
    let mut b: usize = 0;
    while a < ls.len() || b < rs.len()
        invariant
            total_ordering(ord32()),
            a <= ls@.len(),
            b <= rs@.len(),
            sorted_by(ls@, ord32()),
            sorted_by(rs@, ord32()),
            sorted_by(out@, ord32()),
            out@.len() == a + b,
            out@.to_multiset() == ls@.subrange(0, a as int).to_multiset().add(
                rs@.subrange(0, b as int).to_multiset(),
            ),
            forall|t: int| a <= t < ls@.len() && out@.len() > 0 ==> le32(out@.last(), ls@[t]),
            forall|t: int| b <= t < rs@.len() && out@.len() > 0 ==> le32(out@.last(), rs@[t]),
        decreases ls@.len() - a + rs@.len() - b,
    {
        let ghost out_old = out@;
        let ghost ta = a as int;
        let ghost tb = b as int;
        let take_left: bool = if b == rs.len() {
            true
        } else if a == ls.len() {
            false
        } else {
            le32_exec(ls[a], rs[b])
        };
        if take_left {
            let x = ls[a];
            proof {
                lemma_sorted_push(out@, x, ord32());
            }
            out.push(x);
            a = a + 1;
            proof {
                assert(out@ == out_old.push(x));
                assert(out_old.push(x).to_multiset() =~= out_old.to_multiset().insert(x));
                assert(ls@.subrange(0, ta + 1) =~= ls@.subrange(0, ta).push(x));
                assert(ls@.subrange(0, ta).push(x).to_multiset() =~= ls@.subrange(
                    0,
                    ta,
                ).to_multiset().insert(x));
                assert(out@.to_multiset() =~= ls@.subrange(0, ta + 1).to_multiset().add(
                    rs@.subrange(0, tb).to_multiset(),
                ));
                assert(out@.last() == x);
                assert forall|t: int| ta + 1 <= t < ls@.len() implies le32(x, ls@[t]) by {
                    lemma_sorted_index_le32(ls@, ta, t);
                }
                assert forall|t: int| tb <= t < rs@.len() implies le32(x, rs@[t]) by {
                    assert(le32(x, rs@[tb]));
                    lemma_sorted_index_le32(rs@, tb, t);
                }
            }
        } else {
            let x = rs[b];
            proof {
                assert(le32(rs@[tb], ls@[ta]) || ta >= ls@.len()) by {
                    lemma_ord32_total_ordering();
                }
                lemma_sorted_push(out@, x, ord32());
            }
            out.push(x);
            b = b + 1;
            proof {
                assert(out@ == out_old.push(x));
                assert(out_old.push(x).to_multiset() =~= out_old.to_multiset().insert(x));
                assert(rs@.subrange(0, tb + 1) =~= rs@.subrange(0, tb).push(x));
                assert(rs@.subrange(0, tb).push(x).to_multiset() =~= rs@.subrange(
                    0,
                    tb,
                ).to_multiset().insert(x));
                assert(out@.to_multiset() =~= ls@.subrange(0, ta).to_multiset().add(
                    rs@.subrange(0, tb + 1).to_multiset(),
                ));
                assert(out@.last() == x);
                assert forall|t: int| tb + 1 <= t < rs@.len() implies le32(x, rs@[t]) by {
                    lemma_sorted_index_le32(rs@, tb, t);
                }
                assert forall|t: int| ta <= t < ls@.len() implies le32(x, ls@[t]) by {
                    assert(le32(x, ls@[ta]));
                    lemma_sorted_index_le32(ls@, ta, t);
                }
            }
        }
    }
    proof {
        assert(ls@.subrange(0, ls@.len() as int) =~= ls@);
        assert(rs@.subrange(0, rs@.len() as int) =~= rs@);
        assert(out@.to_multiset() == v@.to_multiset());
        lemma_sorted_unique(out@, v@.sort_by(ord32()), ord32());
        assert(out@ =~= v@.sort_by(ord32()));
        assert(out@.len() == v@.len());
    }
    out
}

} // verus!
