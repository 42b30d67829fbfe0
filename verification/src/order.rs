//! The total order on stored element patterns.
//!
//! Elements are ranked by the standard total order on IEEE-754 values: all
//! negative values (most negative first) below negative zero, negative zero
//! below positive zero, then the positive values, with not-a-number patterns
//! at the two extremes according to their sign.  On bit patterns this order
//! is obtained by a monotone key: patterns with the sign bit set are
//! complemented, patterns with it clear get the sign bit added, after which
//! plain unsigned comparison ranks the keys.

use crate::fbits::{SIGN_BIT_F32, SIGN_BIT_F64};
use vstd::prelude::*;
use vstd::relations::{sorted_by, total_ordering};

verus! {

/// The order key of a 64-bit element pattern.
pub open spec fn key64(b: u64) -> u64 {
    if b & SIGN_BIT_F64 == SIGN_BIT_F64 {
        !b
    } else {
        b ^ SIGN_BIT_F64
    }
}

/// The order key of a 32-bit element pattern.
pub open spec fn key32(b: u32) -> u32 {
    if b & SIGN_BIT_F32 == SIGN_BIT_F32 {
        !b
    } else {
        b ^ SIGN_BIT_F32
    }
}

/// `a` comes no later than `b` in the element order (64-bit patterns).
pub open spec fn le64(a: u64, b: u64) -> bool {
    key64(a) <= key64(b)
}

/// `a` comes no later than `b` in the element order (32-bit patterns).
pub open spec fn le32(a: u32, b: u32) -> bool {
    key32(a) <= key32(b)
}

/// The element order on 64-bit patterns as a relation value.
pub open spec fn ord64() -> spec_fn(u64, u64) -> bool {
    |a: u64, b: u64| le64(a, b)
}

/// The element order on 32-bit patterns as a relation value.
pub open spec fn ord32() -> spec_fn(u32, u32) -> bool {
    |a: u32, b: u32| le32(a, b)
}

/// The order key is injective, so the element order is antisymmetric.
pub proof fn lemma_key64_injective(a: u64, b: u64)
    ensures
        key64(a) == key64(b) ==> a == b,
{
    assert((if a & 0x8000_0000_0000_0000u64 == 0x8000_0000_0000_0000u64 {
        !a
    } else {
        a ^ 0x8000_0000_0000_0000u64
    }) == (if b & 0x8000_0000_0000_0000u64 == 0x8000_0000_0000_0000u64 {
        !b
    } else {
        b ^ 0x8000_0000_0000_0000u64
    }) ==> a == b) by (bit_vector);
}

/// The order key is injective, so the element order is antisymmetric.
pub proof fn lemma_key32_injective(a: u32, b: u32)
    ensures
        key32(a) == key32(b) ==> a == b,
{
    assert((if a & 0x8000_0000u32 == 0x8000_0000u32 {
        !a
    } else {
        a ^ 0x8000_0000u32
    }) == (if b & 0x8000_0000u32 == 0x8000_0000u32 {
        !b
    } else {
        b ^ 0x8000_0000u32
    }) ==> a == b) by (bit_vector);
}

/// The element order on 64-bit patterns is a total order.
pub proof fn lemma_ord64_total_ordering()
    ensures
        total_ordering(ord64()),
{
    let leq = ord64();
    assert forall|a: u64, b: u64| #[trigger] leq(a, b) && #[trigger] leq(b, a) implies a == b by {
        lemma_key64_injective(a, b);
    }
}

/// The element order on 32-bit patterns is a total order.
pub proof fn lemma_ord32_total_ordering()
    ensures
        total_ordering(ord32()),
{
    let leq = ord32();
    assert forall|a: u32, b: u32| #[trigger] leq(a, b) && #[trigger] leq(b, a) implies a == b by {
        lemma_key32_injective(a, b);
    }
}

/// Decides the element order on 64-bit patterns.
pub fn le64_exec(a: u64, b: u64) -> (r: bool)
    ensures
        r == le64(a, b),
{
    let ka: u64 = if a & SIGN_BIT_F64 == SIGN_BIT_F64 {
        !a
    } else {
        a ^ SIGN_BIT_F64
    };
    let kb: u64 = if b & SIGN_BIT_F64 == SIGN_BIT_F64 {
        !b
    } else {
        b ^ SIGN_BIT_F64
    };
    ka <= kb
}

/// Decides the element order on 32-bit patterns.
pub fn le32_exec(a: u32, b: u32) -> (r: bool)
    ensures
        r == le32(a, b),
{
    let ka: u32 = if a & SIGN_BIT_F32 == SIGN_BIT_F32 {
        !a
    } else {
        a ^ SIGN_BIT_F32
    };
    let kb: u32 = if b & SIGN_BIT_F32 == SIGN_BIT_F32 {
        !b
    } else {
        b ^ SIGN_BIT_F32
    };
    ka <= kb
}

/// In a sequence sorted by the element order, an earlier element comes no
/// later than a later one.
pub proof fn lemma_sorted_index_le64(s: Seq<u64>, i: int, j: int)
    requires
        sorted_by(s, ord64()),
        0 <= i <= j < s.len(),
    ensures
        le64(s[i], s[j]),
{
    if i < j {
        let leq = ord64();
        assert(leq(s[i], s[j]));
    }
}

/// In a sequence sorted by the element order, an earlier element comes no
/// later than a later one.
pub proof fn lemma_sorted_index_le32(s: Seq<u32>, i: int, j: int)
    requires
        sorted_by(s, ord32()),
        0 <= i <= j < s.len(),
    ensures
        le32(s[i], s[j]),
{
    if i < j {
        let leq = ord32();
        assert(leq(s[i], s[j]));
    }
}

/// How many elements of `s` are at or below `v` in the element order.
pub open spec fn count_le64(s: Seq<u64>, v: u64) -> nat
    decreases s.len(),
{
    if s.len() == 0 {
        0
    } else {
        count_le64(s.drop_last(), v) + if le64(s.last(), v) {
            1nat
        } else {
            0nat
        }
    }
}

/// How many elements of `s` are at or below `v` in the element order.
pub open spec fn count_le32(s: Seq<u32>, v: u32) -> nat
    decreases s.len(),
{
    if s.len() == 0 {
        0
    } else {
        count_le32(s.drop_last(), v) + if le32(s.last(), v) {
            1nat
        } else {
            0nat
        }
    }
}

/// The count of elements at or below a probe never exceeds the length.
pub proof fn lemma_count_le64_bound(s: Seq<u64>, v: u64)
    ensures
        count_le64(s, v) <= s.len(),
    decreases s.len(),
{
    if s.len() > 0 {
        lemma_count_le64_bound(s.drop_last(), v);
    }
}

/// The count of elements at or below a probe never exceeds the length.
pub proof fn lemma_count_le32_bound(s: Seq<u32>, v: u32)
    ensures
        count_le32(s, v) <= s.len(),
    decreases s.len(),
{
    if s.len() > 0 {
        lemma_count_le32_bound(s.drop_last(), v);
    }
}

/// A sorted sequence stays sorted when an element at least as large as its
/// last element is appended.
pub proof fn lemma_sorted_push<A>(s: Seq<A>, x: A, leq: spec_fn(A, A) -> bool)
    requires
        total_ordering(leq),
        sorted_by(s, leq),
        s.len() > 0 ==> leq(s.last(), x),
    ensures
        sorted_by(s.push(x), leq),
{
    let t = s.push(x);
    assert forall|i: int, j: int| 0 <= i < j < t.len() implies #[trigger] leq(t[i], t[j]) by {
        if j < s.len() {
            assert(leq(s[i], s[j]));
        } else {
            assert(t[j] == x);
            if i < s.len() - 1 {
                assert(leq(s[i], s.last()));
            }
        }
    }
}

} // verus!
