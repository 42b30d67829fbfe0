//! The quantile sketch over 64-bit elements.

use crate::codec::{
    decode64, decode_sketch64, encode64, encode_sketch64, lemma_codec64_round_trip,
    lemma_items_le64_len,
};
use crate::interchange::{base64_decode, base64_encode, base64_of};
use crate::error::DataSketchesError;
use crate::fbits::{
    dyadic_of_f64_bits, f64_bits_of_dyadic, frac_floor_mul, frac_scaled_floor,
    is_valid_fraction_bits, lemma_dyadic_round_trip, rank_scaled, rank_to_f64_bits,
    valid_fraction_bits, NAN_BITS_F64,
};
use crate::order::{le64, lemma_count_le64_bound, lemma_ord64_total_ordering, lemma_sorted_index_le64};
use vstd::arithmetic::power2::pow2;
use crate::order::{count_le64, le64_exec, ord64};
use crate::sorting::sort64;
use crate::DEFAULT_K;
use vstd::prelude::*;

verus! {

/// The abstract state of a sketch with 64-bit elements: its resolution and
/// the sequence of every element pattern ingested so far, in arrival order.
#[verifier::ext_equal]
pub struct DoubleSketchView {
    pub k: u16,
    pub items: Seq<u64>,
}

/// The elements of the sketch state arranged by the element order.
pub open spec fn sorted64(m: DoubleSketchView) -> Seq<u64> {
    m.items.sort_by(ord64())
}

/// The rank position selected by a fraction over `n` elements:
/// `floor(fraction * n)`, clamped to the last position.
pub open spec fn quantile_index(frac: u64, n: nat) -> nat {
    if frac_scaled_floor(frac, n) >= n {
        (n - 1) as nat
    } else {
        frac_scaled_floor(frac, n)
    }
}

/// The element a valid fraction selects from a non-empty sketch state.
pub open spec fn quantile_value64(m: DoubleSketchView, frac: u64) -> u64 {
    sorted64(m)[quantile_index(frac, m.items.len()) as int]
}

/// What a quantile query reports: the not-a-number sentinel on an empty
/// sketch or an invalid fraction, and the selected element otherwise.
pub open spec fn quantile_result64(m: DoubleSketchView, frac: u64) -> u64 {
    if m.items.len() == 0 || !is_valid_fraction_bits(frac) {
        NAN_BITS_F64
    } else {
        quantile_value64(m, frac)
    }
}

/// Whether every fraction in a batch is acceptable.
pub open spec fn all_fractions_valid(fr: Seq<u64>) -> bool {
    forall|i: int| 0 <= i < fr.len() ==> is_valid_fraction_bits(#[trigger] fr[i])
}

/// What a batch quantile query reports: nothing on an empty sketch or an
/// empty batch, a batch of not-a-number sentinels if any fraction is
/// invalid, and the selected elements otherwise.
pub open spec fn quantiles_result64(m: DoubleSketchView, fr: Seq<u64>) -> Seq<u64> {
    if m.items.len() == 0 || fr.len() == 0 {
        Seq::empty()
    } else if !all_fractions_valid(fr) {
        Seq::new(fr.len(), |i: int| NAN_BITS_F64)
    } else {
        Seq::new(fr.len(), |i: int| quantile_value64(m, fr[i]))
    }
}

/// The rank position of the `i`-th of `num` evenly spaced quantiles over
/// `n` elements.
pub open spec fn even_index(i: nat, n: nat, num: nat) -> nat {
    if num <= 1 {
        0
    } else {
        (i * ((n - 1) as nat)) / ((num - 1) as nat)
    }
}

/// An evenly spaced rank never exceeds the last position.
pub proof fn lemma_even_index_bound(i: nat, n: nat, num: nat)
    requires
        n >= 1,
        num >= 2,
        i < num,
    ensures
        even_index(i, n, num) <= n - 1,
{
    vstd::arithmetic::mul::lemma_mul_inequality(i as int, num as int - 1, n as int - 1);
    vstd::arithmetic::div_mod::lemma_div_is_ordered(
        (i as int) * (n as int - 1),
        (num as int - 1) * (n as int - 1),
        num as int - 1,
    );
    vstd::arithmetic::mul::lemma_mul_is_commutative(num as int - 1, n as int - 1);
    vstd::arithmetic::div_mod::lemma_div_multiples_vanish(n as int - 1, num as int - 1);
}

/// What an evenly-spaced quantile query reports.
pub open spec fn evenly_result64(m: DoubleSketchView, num: nat) -> Seq<u64> {
    if m.items.len() == 0 || num == 0 {
        Seq::empty()
    } else {
        Seq::new(num, |i: int| sorted64(m)[even_index(i as nat, m.items.len(), num) as int])
    }
}

/// What a rank query reports: the fraction of elements at or below the
/// probe in the element order, as an exact dyadic rational with 53
/// fractional bits; not-a-number on an empty sketch.
pub open spec fn rank_result64(m: DoubleSketchView, value: u64) -> u64 {
    if m.items.len() == 0 {
        NAN_BITS_F64
    } else {
        f64_bits_of_dyadic(rank_scaled(count_le64(m.items, value), m.items.len()))
    }
}

/// The retained count reported to callers, saturated to 32 bits.
pub open spec fn retained_count(m: DoubleSketchView) -> nat {
    if m.items.len() > 0xFFFF_FFFF {
        0xFFFF_FFFF
    } else {
        m.items.len()
    }
}

/// A quantile sketch over 64-bit elements.
///
/// The sketch owns its whole state: the resolution chosen at construction
/// and every ingested element pattern.  Duplicating a sketch therefore
/// always yields a fully independent value, and releasing one releases
/// exactly its own state.
#[derive(Debug)]
pub struct KllDoubleSketch {
    k: u16,
    items: Vec<u64>,
}

impl View for KllDoubleSketch {
    type V = DoubleSketchView;

    closed spec fn view(&self) -> DoubleSketchView {
        DoubleSketchView { k: self.k, items: self.items@ }
    }
}

/// Copies a vector of element patterns exactly.
fn copy_items64(v: &Vec<u64>) -> (r: Vec<u64>)
    ensures
        r@ == v@,
{
    let mut out: Vec<u64> = Vec::new();
    let n = v.len();
    let mut i: usize = 0;
    while i < n
        invariant
            i <= n == v@.len(),
            out@ == v@.subrange(0, i as int),
        decreases n - i,
    {
        out.push(v[i]);
        proof {
            assert(out@ =~= v@.subrange(0, i + 1 as int));
        }
        i = i + 1;
    }
    proof {
        assert(out@ =~= v@);
    }
    out
}

impl KllDoubleSketch {
    /// Every sketch keeps a resolution of at least eight; construction and
    /// deserialization refuse anything smaller.
    #[verifier::type_invariant]
    spec fn wf(self) -> bool {
        self.k >= 8
    }

    /// Creates a new sketch with the default resolution.
    pub fn new() -> (r: Result<Self, DataSketchesError>)
        ensures
            (r matches Ok(s) && s@.k == DEFAULT_K && s@.items == Seq::<u64>::empty()),
    {
        Ok(KllDoubleSketch { k: DEFAULT_K, items: Vec::new() })
    }

    /// Creates a new sketch with the given resolution.
    ///
    /// The resolution controls the accuracy/space trade-off of the
    /// underlying algorithm and must be at least eight; smaller values are
    /// rejected before any state is allocated.
    pub fn new_with_k(k: u16) -> (r: Result<Self, DataSketchesError>)
        ensures
            k >= 8 ==> (r matches Ok(s) && s@.k == k && s@.items == Seq::<u64>::empty()),
            k < 8 ==> (r matches Err(e) && e is InvalidParameter),
    {
        if k < 8 {
            return Err(DataSketchesError::InvalidParameter("k must be at least 8".to_string()));
        }
        Ok(KllDoubleSketch { k, items: Vec::new() })
    }

    /// Ingests one element pattern; never fails, and grows `n` by one.
    pub fn update(&mut self, value: u64)
        ensures
            final(self)@.k == old(self)@.k,
            final(self)@.items == old(self)@.items.push(value),
    {
        proof {
            use_type_invariant(&*self);
        }
        let mut items: Vec<u64> = Vec::new();
        core::mem::swap(&mut items, &mut self.items);
        items.push(value);
        self.items = items;
    }

    /// Absorbs every element of another sketch; the argument is left
    /// unchanged and the receiver keeps its own resolution.
    pub fn merge(&mut self, other: &KllDoubleSketch) -> (r: Result<(), DataSketchesError>)
        ensures
            r is Ok,
            final(self)@.k == old(self)@.k,
            final(self)@.items == old(self)@.items + other@.items,
    {
        proof {
            use_type_invariant(&*self);
        }
        let mut items: Vec<u64> = Vec::new();
        core::mem::swap(&mut items, &mut self.items);
        proof {
            assert(items@ == old(self)@.items);
        }
        let n = other.items.len();
        let mut i: usize = 0;
        while i < n
            invariant
                i <= n == other@.items.len(),
                items@ == old(self)@.items + other@.items.subrange(0, i as int),
            decreases n - i,
        {
            items.push(other.items[i]);
            proof {
                assert(items@ =~= old(self)@.items + other@.items.subrange(0, i + 1 as int));
            }
            i = i + 1;
        }
        self.items = items;
        proof {
            assert(self@.items =~= old(self)@.items + other@.items);
        }
        Ok(())
    }

    /// Reports whether no element has been ingested yet.
    pub fn is_empty(&self) -> (r: bool)
        ensures
            r == (self@.items.len() == 0),
    {
        self.items.len() == 0
    }

    /// Reports the resolution fixed at construction.
    pub fn get_k(&self) -> (r: u16)
        ensures
            r == self@.k,
    {
        self.k
    }

    /// Reports the number of elements ingested so far.
    pub fn get_n(&self) -> (r: u64)
        ensures
            r as nat == self@.items.len(),
    {
        self.items.len() as u64
    }

    /// Reports the number of elements currently retained, saturated to 32
    /// bits.  This sketch retains every ingested element exactly, so the
    /// retained count equals `n` up to saturation.
    pub fn get_num_retained(&self) -> (r: u32)
        ensures
            r as nat == retained_count(self@),
    {
        let n = self.items.len();
        if n >= 0xFFFF_FFFFusize {
            0xFFFF_FFFFu32
        } else {
            n as u32
        }
    }

    /// Reports whether internal compaction has begun discarding elements.
    /// This sketch retains every element exactly, so compaction never
    /// begins and the answer is always false.
    pub fn is_estimation_mode(&self) -> (r: bool)
        ensures
            !r,
    {
        false
    }

    /// Reports the least element in the element order, or the not-a-number
    /// sentinel if the sketch is empty.
    pub fn get_min_value(&self) -> (r: u64)
        ensures
            self@.items.len() == 0 ==> r == NAN_BITS_F64,
            self@.items.len() > 0 ==> r == sorted64(self@).first(),
    {
        if self.items.len() == 0 {
            return NAN_BITS_F64;
        }
        let sorted = sort64(&self.items);
        sorted[0]
    }

    /// Reports the greatest element in the element order, or the
    /// not-a-number sentinel if the sketch is empty.
    pub fn get_max_value(&self) -> (r: u64)
        ensures
            self@.items.len() == 0 ==> r == NAN_BITS_F64,
            self@.items.len() > 0 ==> r == sorted64(self@).last(),
    {
        if self.items.len() == 0 {
            return NAN_BITS_F64;
        }
        let sorted = sort64(&self.items);
        sorted[sorted.len() - 1]
    }

    /// Reports the element whose rank matches the given fraction, or the
    /// not-a-number sentinel if the sketch is empty or the fraction is not
    /// a finite value between zero and one.  The validation happens before
    /// anything else: an invalid fraction never reaches the selection path.
    pub fn get_quantile(&self, fraction: u64) -> (r: u64)
        ensures
            r == quantile_result64(self@, fraction),
    {
        if self.items.len() == 0 {
            return NAN_BITS_F64;
        }
        if !valid_fraction_bits(fraction) {
            return NAN_BITS_F64;
        }
        let n = self.items.len();
        let f = frac_floor_mul(fraction, n as u64);
        let idx: usize = if f >= n as u64 {
            n - 1
        } else {
            f as usize
        };
        let sorted = sort64(&self.items);
        sorted[idx]
    }

    /// Reports the fraction of elements at or below the probe in the
    /// element order, as an exact dyadic rational with 53 fractional bits;
    /// not-a-number if the sketch is empty.
    pub fn get_rank(&self, value: u64) -> (r: u64)
        ensures
            r == rank_result64(self@, value),
    {
        let n = self.items.len();
        if n == 0 {
            return NAN_BITS_F64;
        }
        let mut cnt: usize = 0;
        let mut i: usize = 0;
        while i < n
            invariant
                i <= n == self@.items.len(),
                cnt as nat == count_le64(self@.items.subrange(0, i as int), value),
                cnt <= i,
            decreases n - i,
        {
            if le64_exec(self.items[i], value) {
                cnt = cnt + 1;
            }
            proof {
                let pre = self@.items.subrange(0, i as int);
                let post = self@.items.subrange(0, i + 1 as int);
                assert(post.drop_last() =~= pre);
                assert(post.last() == self@.items[i as int]);
            }
            i = i + 1;
        }
        proof {
            assert(self@.items.subrange(0, n as int) =~= self@.items);
        }
        rank_to_f64_bits(cnt as u64, n as u64)
    }

    /// Reports one quantile per fraction.  The whole batch fails together:
    /// if the sketch is empty or the batch is empty the result is empty,
    /// and if any fraction is invalid every entry of the result is the
    /// not-a-number sentinel.
    pub fn get_quantiles(&self, fractions: &Vec<u64>) -> (r: Vec<u64>)
        ensures
            r@ == quantiles_result64(self@, fractions@),
    {
        let m = fractions.len();
        if self.items.len() == 0 || m == 0 {
            let out: Vec<u64> = Vec::new();
            proof {
                assert(out@ =~= quantiles_result64(self@, fractions@));
            }
            return out;
        }
        let mut all_valid = true;
        let mut i: usize = 0;
        while i < m
            invariant
                i <= m == fractions@.len(),
                all_valid == all_fractions_valid(fractions@.subrange(0, i as int)),
            decreases m - i,
        {
            let ghost pre = fractions@.subrange(0, i as int);
            let ghost post = fractions@.subrange(0, i + 1 as int);
            if !valid_fraction_bits(fractions[i]) {
                all_valid = false;
            }
            proof {
                assert(post.drop_last() =~= pre);
                assert(post.last() == fractions@[i as int]);
                assert(all_fractions_valid(post) == (all_fractions_valid(pre)
                    && is_valid_fraction_bits(fractions@[i as int]))) by {
                    if all_fractions_valid(pre) && is_valid_fraction_bits(fractions@[i as int]) {
                        assert forall|j: int| 0 <= j < post.len() implies is_valid_fraction_bits(
                            #[trigger] post[j],
                        ) by {
                            if j < i as int {
                                assert(post[j] == pre[j]);
                            }
                        }
                    }
                }
            }
            i = i + 1;
        }
        proof {
            assert(fractions@.subrange(0, m as int) =~= fractions@);
        }
        if !all_valid {
            let mut out: Vec<u64> = Vec::new();
            let mut j: usize = 0;
            while j < m
                invariant
                    j <= m,
                    out@.len() == j,
                    forall|t: int| 0 <= t < j ==> out@[t] == NAN_BITS_F64,
                decreases m - j,
            {
                out.push(NAN_BITS_F64);
                j = j + 1;
            }
            proof {
                assert(out@ =~= Seq::new(fractions@.len(), |i: int| NAN_BITS_F64));
            }
            return out;
        }
        let n = self.items.len();
        let sorted = sort64(&self.items);
        let mut out: Vec<u64> = Vec::new();
        let mut j: usize = 0;
        while j < m
            invariant
                j <= m == fractions@.len(),
                n == self@.items.len(),
                n > 0,
                all_fractions_valid(fractions@),
                sorted@ == sorted64(self@),
                sorted@.len() == n,
                out@.len() == j,
                forall|t: int| 0 <= t < j ==> out@[t] == quantile_value64(self@, fractions@[t]),
            decreases m - j,
        {
            let f = frac_floor_mul(fractions[j], n as u64);
            let idx: usize = if f >= n as u64 {
                n - 1
            } else {
                f as usize
            };
            out.push(sorted[idx]);
            j = j + 1;
        }
        proof {
            assert(out@ =~= Seq::new(fractions@.len(), |i: int| quantile_value64(self@, fractions@[i])));
        }
        out
    }

    /// Reports `num` quantiles at evenly spaced ranks, from the least
    /// element to the greatest; empty if the sketch is empty or `num` is
    /// zero.
    pub fn get_quantiles_evenly_spaced(&self, num: u32) -> (r: Vec<u64>)
        ensures
            r@ == evenly_result64(self@, num as nat),
    {
        let n = self.items.len();
        if n == 0 || num == 0 {
            let out: Vec<u64> = Vec::new();
            proof {
                assert(out@ =~= evenly_result64(self@, num as nat));
            }
            return out;
        }
        let sorted = sort64(&self.items);
        let mut out: Vec<u64> = Vec::new();
        let mut i: u32 = 0;
        while i < num
            invariant
                i <= num,
                num >= 1,
                n == self@.items.len(),
                n > 0,
                sorted@ == sorted64(self@),
                sorted@.len() == n,
                out@.len() == i as nat,
                forall|t: int|
                    0 <= t < i as int ==> out@[t] == sorted64(self@)[even_index(
                        t as nat,
                        self@.items.len(),
                        num as nat,
                    ) as int],
            decreases num - i,
        {
            let idx: usize = if num == 1 {
                0
            } else {
                proof {
                    vstd::arithmetic::mul::lemma_mul_upper_bound(
                        i as int,
                        0xFFFF_FFFF,
                        (n - 1) as int,
                        0xFFFF_FFFF_FFFF_FFFF,
                    );
                }
                let w: u128 = (i as u128) * ((n - 1) as u128) / ((num - 1) as u128);
                proof {
                    lemma_even_index_bound(i as nat, n as nat, num as nat);
                    assert(w as nat == even_index(i as nat, n as nat, num as nat));
                }
                w as usize
            };
            proof {
                assert(idx as nat == even_index(i as nat, n as nat, num as nat));
            }
            out.push(sorted[idx]);
            i = i + 1;
        }
        proof {
            assert(out@ =~= evenly_result64(self@, num as nat));
        }
        out
    }

    /// Serializes the sketch to its opaque byte form; the bytes are owned
    /// by the caller and hold the resolution and every element.
    pub fn serialize(&self) -> (r: Result<Vec<u8>, DataSketchesError>)
        ensures
            (r matches Ok(b) && b@ == encode64(self@.k, self@.items)),
    {
        Ok(encode_sketch64(self.k, &self.items))
    }

    /// Reconstructs a sketch from its opaque byte form; fails with a
    /// deserialization error exactly when the bytes are not a well-formed
    /// serialized sketch of this element width.
    pub fn deserialize(data: &Vec<u8>) -> (r: Result<Self, DataSketchesError>)
        ensures
            decode64(data@) matches Some(p) ==> (r matches Ok(s) && s@.k == p.0 && s@.items
                == p.1),
            decode64(data@) is None ==> (r matches Err(e) && e is DeserializationError),
    {
        match decode_sketch64(data) {
            Some((k, items)) => Ok(KllDoubleSketch { k, items }),
            None => Err(
                DataSketchesError::DeserializationError(
                    "not a serialized sketch".to_string(),
                ),
            ),
        }
    }

    /// Serializes the sketch to text: the opaque byte form, base64-encoded.
    /// Fails only when the byte form is too large for the text encoder.
    pub fn to_base64(&self) -> (r: Result<String, DataSketchesError>)
        ensures
            13 + 8 * self@.items.len() <= usize::MAX / 4 ==> r is Ok,
            r matches Ok(t) ==> t@ == base64_of(encode64(self@.k, self@.items)),
            r matches Err(e) ==> e is SerializationError,
    {
        let bytes = self.serialize().unwrap();
        proof {
            lemma_items_le64_len(self@.items);
            assert(bytes@.len() == 13 + 8 * self@.items.len());
        }
        if bytes.len() > usize::MAX / 4 {
            return Err(
                DataSketchesError::SerializationError(
                    "serialized form too large for text encoding".to_string(),
                ),
            );
        }
        Ok(base64_encode(&bytes))
    }

    /// Reconstructs a sketch from its textual form: the base64-decoded
    /// bytes handed to `deserialize`.  Succeeds on the text form of every
    /// sketch state with a valid resolution; any failure is reported as a
    /// deserialization error.
    pub fn from_base64(s: &str) -> (r: Result<Self, DataSketchesError>)
        ensures
            forall|k: u16, items: Seq<u64>|
                (k >= 8 && items.len() <= u64::MAX && s@ == base64_of(encode64(k, items))) ==> (
                r matches Ok(sk) && sk@.k == k && sk@.items == items),
            r matches Err(e) ==> e is DeserializationError,
    {
        let decoded = base64_decode(s);
        match decoded {
            Ok(bytes) => {
                let parsed = Self::deserialize(&bytes);
                match parsed {
                    Ok(sk) => {
                        proof {
                            assert forall|k: u16, items: Seq<u64>|
                                (k >= 8 && items.len() <= u64::MAX && s@ == base64_of(
                                    encode64(k, items),
                                )) implies (sk@.k == k && sk@.items == items) by {
                                lemma_codec64_round_trip(k, items);
                            }
                        }
                        Ok(sk)
                    },
                    Err(_) => {
                        proof {
                            assert forall|k: u16, items: Seq<u64>|
                                !(k >= 8 && items.len() <= u64::MAX && s@ == base64_of(
                                    encode64(k, items),
                                )) by {
                                if k >= 8 && items.len() <= u64::MAX && s@ == base64_of(
                                    encode64(k, items),
                                ) {
                                    lemma_codec64_round_trip(k, items);
                                }
                            }
                        }
                        Err(
                            DataSketchesError::DeserializationError(
                                "text form does not hold a serialized sketch".to_string(),
                            ),
                        )
                    },
                }
            },
            Err(_) => {
                proof {
                    assert forall|k: u16, items: Seq<u64>|
                        !(k >= 8 && items.len() <= u64::MAX && s@ == base64_of(
                            encode64(k, items),
                        )) by {
                        if s@ == base64_of(encode64(k, items)) {
                        }
                    }
                }
                Err(
                    DataSketchesError::DeserializationError(
                        "text form is not valid base64".to_string(),
                    ),
                )
            },
        }
    }

    /// Produces an independent duplicate with identical state, by copying
    /// the retained elements directly.
    pub fn copy(&self) -> (r: Result<Self, DataSketchesError>)
        ensures
            (r matches Ok(s) && s@ == self@),
    {
        proof {
            use_type_invariant(self);
        }
        let c = KllDoubleSketch { k: self.k, items: copy_items64(&self.items) };
        proof {
            assert(c@ =~= self@);
        }
        Ok(c)
    }
}

impl Clone for KllDoubleSketch {
    /// Duplicates the sketch through its direct copy operation; the
    /// duplicate has exactly the state of the original and is fully
    /// independent of it.
    fn clone(&self) -> (r: Self)
        ensures
            r@ == self@,
    {
        self.copy().unwrap()
    }
}

impl Default for KllDoubleSketch {
    /// An empty sketch with the default resolution.
    fn default() -> (r: Self)
        ensures
            r@.k == DEFAULT_K,
            r@.items == Seq::<u64>::empty(),
    {
        Self::new().unwrap()
    }
}

/// The state reached from `m` by ingesting each value of `vals` in order,
/// one `update` call at a time.
pub open spec fn ingest_all64(m: DoubleSketchView, vals: Seq<u64>) -> DoubleSketchView
    decreases vals.len(),
{
    if vals.len() == 0 {
        m
    } else {
        ingest_all64(
            DoubleSketchView { k: m.k, items: m.items.push(vals.first()) },
            vals.drop_first(),
        )
    }
}

/// After any sequence of `update` calls, `n` has grown by exactly the
/// number of calls, the resolution is unchanged, and the retained count
/// never exceeds `n`.
pub proof fn lemma_ingest_counts64(m: DoubleSketchView, vals: Seq<u64>)
    ensures
        ingest_all64(m, vals).k == m.k,
        ingest_all64(m, vals).items == m.items + vals,
        ingest_all64(m, vals).items.len() == m.items.len() + vals.len(),
        retained_count(ingest_all64(m, vals)) <= ingest_all64(m, vals).items.len(),
    decreases vals.len(),
{
    if vals.len() == 0 {
        assert(m.items + vals =~= m.items);
    } else {
        let m1 = DoubleSketchView { k: m.k, items: m.items.push(vals.first()) };
        lemma_ingest_counts64(m1, vals.drop_first());
        assert(m1.items + vals.drop_first() =~= m.items + vals);
    }
}

/// On an empty sketch every query reports its empty answer: zero retained
/// elements, the not-a-number sentinel from single-value queries, and an
/// empty sequence from batch queries.
pub proof fn lemma_empty_sketch64(m: DoubleSketchView)
    requires
        m.items.len() == 0,
    ensures
        retained_count(m) == 0,
        forall|f: u64| #[trigger] quantile_result64(m, f) == NAN_BITS_F64,
        forall|v: u64| #[trigger] rank_result64(m, v) == NAN_BITS_F64,
        forall|fr: Seq<u64>| #[trigger] quantiles_result64(m, fr) == Seq::<u64>::empty(),
        forall|num: nat| #[trigger] evenly_result64(m, num) == Seq::<u64>::empty(),
{
}

/// An invalid fraction never selects an element: the quantile query
/// reports the not-a-number sentinel.
pub proof fn lemma_invalid_fraction64(m: DoubleSketchView, f: u64)
    requires
        !is_valid_fraction_bits(f),
    ensures
        quantile_result64(m, f) == NAN_BITS_F64,
{
}



/// The reported minimum and maximum are elements of the sketch, and bound
/// every element in the element order; any quantile of a valid fraction is
/// also one of the elements.
pub proof fn lemma_extremes_and_quantiles_are_elements64(m: DoubleSketchView, frac: u64)
    requires
        m.items.len() > 0,
        is_valid_fraction_bits(frac),
    ensures
        m.items.to_multiset().contains(sorted64(m).first()),
        m.items.to_multiset().contains(sorted64(m).last()),
        m.items.to_multiset().contains(quantile_value64(m, frac)),
        forall|i: int|
            0 <= i < m.items.len() ==> le64(sorted64(m).first(), #[trigger] m.items[i]),
        forall|i: int|
            0 <= i < m.items.len() ==> le64(#[trigger] m.items[i], sorted64(m).last()),
{
    broadcast use vstd::seq_lib::group_to_multiset_ensures;

    lemma_ord64_total_ordering();
    m.items.lemma_sort_by_ensures(ord64());
    let s = sorted64(m);
    let n = m.items.len() as int;
    crate::fbits::lemma_valid_fraction_fields(frac);
    let q = quantile_index(frac, m.items.len());
    assert(q < m.items.len());
    assert(m.items.to_multiset() == s.to_multiset());
    assert(s.to_multiset().len() == s.len());
    assert(m.items.to_multiset().len() == m.items.len());
    assert(s.len() == m.items.len());
    assert(s.contains(s[0])) by {
        assert(0 <= 0 < s.len() && s[0] == s[0]);
    }
    assert(s.contains(s[n - 1])) by {
        assert(s[n - 1] == s[n - 1]);
    }
    assert(s.contains(s[q as int])) by {
        assert(s[q as int] == s[q as int]);
    }
    assert forall|i: int|
        0 <= i < m.items.len() implies le64(s.first(), #[trigger] m.items[i]) && le64(
        m.items[i],
        s.last(),
    ) by {
        assert(m.items.contains(m.items[i]));
        assert(s.to_multiset().contains(m.items[i]));
        assert(s.contains(m.items[i]));
        let j = choose|j: int| 0 <= j < s.len() && s[j] == m.items[i];
        lemma_sorted_index_le64(s, 0, j);
        lemma_sorted_index_le64(s, j, n - 1);
    }
}

/// What a rank result means: reading the reported pattern back as a dyadic
/// numerator gives exactly `floor(count * pow2(53) / n)`, where `count` is
/// the number of elements at or below the probe.  The reported double is
/// therefore the exact fraction `count / n`, rounded down to 53 fractional
/// bits.
pub proof fn lemma_rank_meaning64(m: DoubleSketchView, value: u64)
    requires
        m.items.len() > 0,
    ensures
        dyadic_of_f64_bits(rank_result64(m, value)) == rank_scaled(
            count_le64(m.items, value),
            m.items.len(),
        ),
{
    let cnt = count_le64(m.items, value);
    let n = m.items.len();
    lemma_count_le64_bound(m.items, value);
    assert(rank_scaled(cnt, n) <= pow2(53)) by {
        vstd::arithmetic::mul::lemma_mul_inequality(cnt as int, n as int, pow2(53) as int);
        vstd::arithmetic::div_mod::lemma_div_is_ordered(
            (cnt as int) * (pow2(53) as int),
            (n as int) * (pow2(53) as int),
            n as int,
        );
        vstd::arithmetic::mul::lemma_mul_is_commutative(n as int, pow2(53) as int);
        vstd::arithmetic::div_mod::lemma_div_multiples_vanish(pow2(53) as int, n as int);
    }
    lemma_dyadic_round_trip(rank_scaled(cnt, n));
}

/// One invalid fraction fails its whole batch: the result has the same
/// length as the input and every entry is the not-a-number sentinel.
pub proof fn lemma_invalid_batch64(m: DoubleSketchView, fr: Seq<u64>, i: int)
    requires
        m.items.len() > 0,
        fr.len() > 0,
        0 <= i < fr.len(),
        !is_valid_fraction_bits(fr[i]),
    ensures
        quantiles_result64(m, fr).len() == fr.len(),
        forall|j: int| 0 <= j < fr.len() ==> quantiles_result64(m, fr)[j] == NAN_BITS_F64,
{
    assert(!all_fractions_valid(fr));
}

} // verus!
