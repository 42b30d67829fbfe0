//! The serialization envelope.
//!
//! A sketch serializes to an opaque byte sequence: a fixed header (two magic
//! bytes, an element-width tag, the resolution and the retained count) and
//! then each retained element in little-endian order.  Encoding and decoding
//! are stated as spec functions, and the decoder is proved to accept exactly
//! the sequences the encoder produces, which is the round-trip guarantee the
//! sketches build on.

use vstd::prelude::*;

verus! {

/// First magic byte of every serialized sketch.
pub const MAGIC_0: u8 = 0x4B;

/// Second magic byte of every serialized sketch.
pub const MAGIC_1: u8 = 0x51;

/// Width tag of a sketch with 64-bit elements.
pub const TAG_64: u8 = 8;

/// Width tag of a sketch with 32-bit elements.
pub const TAG_32: u8 = 4;

/// Number of header bytes before the elements.
pub const HEADER_LEN: usize = 13;

/// A 16-bit value as two little-endian bytes.
pub open spec fn u16_le(x: u16) -> Seq<u8> {
    seq![(x & 0xFF) as u8, ((x >> 8) & 0xFF) as u8]
}

/// A 64-bit value as eight little-endian bytes.
pub open spec fn u64_le(x: u64) -> Seq<u8> {
    seq![
        (x & 0xFF) as u8,
        ((x >> 8) & 0xFF) as u8,
        ((x >> 16) & 0xFF) as u8,
        ((x >> 24) & 0xFF) as u8,
        ((x >> 32) & 0xFF) as u8,
        ((x >> 40) & 0xFF) as u8,
        ((x >> 48) & 0xFF) as u8,
        ((x >> 56) & 0xFF) as u8,
    ]
}

/// A 32-bit value as four little-endian bytes.
pub open spec fn u32_le(x: u32) -> Seq<u8> {
    seq![
        (x & 0xFF) as u8,
        ((x >> 8) & 0xFF) as u8,
        ((x >> 16) & 0xFF) as u8,
        ((x >> 24) & 0xFF) as u8,
    ]
}

/// The 16-bit value read from two little-endian bytes.
pub open spec fn u16_from_le(b0: u8, b1: u8) -> u16 {
    (b0 as u16) | ((b1 as u16) << 8)
}

/// The 64-bit value read from eight little-endian bytes.
pub open spec fn u64_from_le(s: Seq<u8>) -> u64 {
    (s[0] as u64) | ((s[1] as u64) << 8) | ((s[2] as u64) << 16) | ((s[3] as u64) << 24) | ((
    s[4] as u64) << 32) | ((s[5] as u64) << 40) | ((s[6] as u64) << 48) | ((s[7] as u64) << 56)
}

/// The 32-bit value read from four little-endian bytes.
pub open spec fn u32_from_le(s: Seq<u8>) -> u32 {
    (s[0] as u32) | ((s[1] as u32) << 8) | ((s[2] as u32) << 16) | ((s[3] as u32) << 24)
}

/// Reading back the two little-endian bytes of a 16-bit value returns it.
pub proof fn lemma_u16_le_round(x: u16)
    ensures
        u16_from_le(u16_le(x)[0], u16_le(x)[1]) == x,
{
    assert((((x & 0xFF) as u8) as u16) | (((((x >> 8) & 0xFF) as u8) as u16) << 8) == x)
        by (bit_vector);
}

/// Reading back the eight little-endian bytes of a 64-bit value returns it.
pub proof fn lemma_u64_le_round(x: u64)
    ensures
        u64_from_le(u64_le(x)) == x,
{
    assert((((x & 0xFF) as u8) as u64) | (((((x >> 8) & 0xFF) as u8) as u64) << 8) | (((((x >> 16)
        & 0xFF) as u8) as u64) << 16) | (((((x >> 24) & 0xFF) as u8) as u64) << 24) | (((((x >> 32)
        & 0xFF) as u8) as u64) << 32) | (((((x >> 40) & 0xFF) as u8) as u64) << 40) | (((((x >> 48)
        & 0xFF) as u8) as u64) << 48) | (((((x >> 56) & 0xFF) as u8) as u64) << 56) == x)
        by (bit_vector);
}

/// Reading back the four little-endian bytes of a 32-bit value returns it.
pub proof fn lemma_u32_le_round(x: u32)
    ensures
        u32_from_le(u32_le(x)) == x,
{
    assert((((x & 0xFF) as u8) as u32) | (((((x >> 8) & 0xFF) as u8) as u32) << 8) | (((((x >> 16)
        & 0xFF) as u8) as u32) << 16) | (((((x >> 24) & 0xFF) as u8) as u32) << 24) == x)
        by (bit_vector);
}

/// Any eight bytes are reproduced by encoding the value read from them.
pub proof fn lemma_u64_from_le_round(s: Seq<u8>)
    requires
        s.len() == 8,
    ensures
        u64_le(u64_from_le(s)) == s,
{
    let b0 = s[0];
    let b1 = s[1];
    let b2 = s[2];
    let b3 = s[3];
    let b4 = s[4];
    let b5 = s[5];
    let b6 = s[6];
    let b7 = s[7];
    let x = (b0 as u64) | ((b1 as u64) << 8) | ((b2 as u64) << 16) | ((b3 as u64) << 24) | ((
    b4 as u64) << 32) | ((b5 as u64) << 40) | ((b6 as u64) << 48) | ((b7 as u64) << 56);
    assert(u64_from_le(s) == x);
    assert((x & 0xFF) as u8 == b0 && ((x >> 8) & 0xFF) as u8 == b1 && ((x >> 16) & 0xFF) as u8
        == b2 && ((x >> 24) & 0xFF) as u8 == b3 && ((x >> 32) & 0xFF) as u8 == b4 && ((x >> 40)
        & 0xFF) as u8 == b5 && ((x >> 48) & 0xFF) as u8 == b6 && ((x >> 56) & 0xFF) as u8 == b7)
        by (bit_vector)
        requires
            x == (b0 as u64) | ((b1 as u64) << 8) | ((b2 as u64) << 16) | ((b3 as u64) << 24) | ((
            b4 as u64) << 32) | ((b5 as u64) << 40) | ((b6 as u64) << 48) | ((b7 as u64) << 56),
    ;
    assert(u64_le(x) =~= s);
}

/// Any four bytes are reproduced by encoding the value read from them.
pub proof fn lemma_u32_from_le_round(s: Seq<u8>)
    requires
        s.len() == 4,
    ensures
        u32_le(u32_from_le(s)) == s,
{
    let b0 = s[0];
    let b1 = s[1];
    let b2 = s[2];
    let b3 = s[3];
    let x = (b0 as u32) | ((b1 as u32) << 8) | ((b2 as u32) << 16) | ((b3 as u32) << 24);
    assert(u32_from_le(s) == x);
    assert((x & 0xFF) as u8 == b0 && ((x >> 8) & 0xFF) as u8 == b1 && ((x >> 16) & 0xFF) as u8
        == b2 && ((x >> 24) & 0xFF) as u8 == b3) by (bit_vector)
        requires
            x == (b0 as u32) | ((b1 as u32) << 8) | ((b2 as u32) << 16) | ((b3 as u32) << 24),
    ;
    assert(u32_le(x) =~= s);
}

/// The elements of a sequence of 64-bit values, eight bytes each.
pub open spec fn items_le64(s: Seq<u64>) -> Seq<u8>
    decreases s.len(),
{
    if s.len() == 0 {
        Seq::empty()
    } else {
        u64_le(s.first()) + items_le64(s.drop_first())
    }
}

/// The elements of a sequence of 32-bit values, four bytes each.
pub open spec fn items_le32(s: Seq<u32>) -> Seq<u8>
    decreases s.len(),
{
    if s.len() == 0 {
        Seq::empty()
    } else {
        u32_le(s.first()) + items_le32(s.drop_first())
    }
}

/// The 64-bit values read back from a byte sequence, eight bytes each.
pub open spec fn items_from_le64(b: Seq<u8>) -> Seq<u64>
    decreases b.len(),
{
    if b.len() < 8 {
        Seq::empty()
    } else {
        seq![u64_from_le(b.subrange(0, 8))] + items_from_le64(b.skip(8))
    }
}

/// The 32-bit values read back from a byte sequence, four bytes each.
pub open spec fn items_from_le32(b: Seq<u8>) -> Seq<u32>
    decreases b.len(),
{
    if b.len() < 4 {
        Seq::empty()
    } else {
        seq![u32_from_le(b.subrange(0, 4))] + items_from_le32(b.skip(4))
    }
}

/// Element encoding takes eight bytes per element.
pub proof fn lemma_items_le64_len(s: Seq<u64>)
    ensures
        items_le64(s).len() == 8 * s.len(),
    decreases s.len(),
{
    if s.len() > 0 {
        lemma_items_le64_len(s.drop_first());
    }
}

/// Element encoding takes four bytes per element.
pub proof fn lemma_items_le32_len(s: Seq<u32>)
    ensures
        items_le32(s).len() == 4 * s.len(),
    decreases s.len(),
{
    if s.len() > 0 {
        lemma_items_le32_len(s.drop_first());
    }
}

/// Appending one element appends its eight bytes.
pub proof fn lemma_items_le64_push(s: Seq<u64>, x: u64)
    ensures
        items_le64(s.push(x)) == items_le64(s) + u64_le(x),
    decreases s.len(),
{
    let t = s.push(x);
    if s.len() == 0 {
        assert(t.drop_first() =~= Seq::<u64>::empty());
        assert(items_le64(t.drop_first()) =~= Seq::<u8>::empty());
        assert(t.first() == x);
        assert(items_le64(t) =~= u64_le(x) + items_le64(t.drop_first()));
        assert(items_le64(s) =~= Seq::<u8>::empty());
        assert(items_le64(t) =~= items_le64(s) + u64_le(x));
    } else {
        assert(t.drop_first() =~= s.drop_first().push(x));
        lemma_items_le64_push(s.drop_first(), x);
        assert(t.first() == s.first());
        assert(items_le64(t) =~= u64_le(s.first()) + items_le64(t.drop_first()));
        assert(items_le64(t.drop_first()) =~= items_le64(s.drop_first()) + u64_le(x));
        assert(items_le64(s) =~= u64_le(s.first()) + items_le64(s.drop_first()));
        assert(items_le64(t) =~= items_le64(s) + u64_le(x));
    }
}

/// Appending one element appends its four bytes.
pub proof fn lemma_items_le32_push(s: Seq<u32>, x: u32)
    ensures
        items_le32(s.push(x)) == items_le32(s) + u32_le(x),
    decreases s.len(),
{
    let t = s.push(x);
    if s.len() == 0 {
        assert(t.drop_first() =~= Seq::<u32>::empty());
        assert(items_le32(t.drop_first()) =~= Seq::<u8>::empty());
        assert(t.first() == x);
        assert(items_le32(t) =~= u32_le(x) + items_le32(t.drop_first()));
        assert(items_le32(s) =~= Seq::<u8>::empty());
        assert(items_le32(t) =~= items_le32(s) + u32_le(x));
    } else {
        assert(t.drop_first() =~= s.drop_first().push(x));
        lemma_items_le32_push(s.drop_first(), x);
        assert(t.first() == s.first());
        assert(items_le32(t) =~= u32_le(s.first()) + items_le32(t.drop_first()));
        assert(items_le32(t.drop_first()) =~= items_le32(s.drop_first()) + u32_le(x));
        assert(items_le32(s) =~= u32_le(s.first()) + items_le32(s.drop_first()));
        assert(items_le32(t) =~= items_le32(s) + u32_le(x));
    }
}

/// Reading back an encoded element sequence returns it.
pub proof fn lemma_items_round64(s: Seq<u64>)
    ensures
        items_from_le64(items_le64(s)) == s,
    decreases s.len(),
{
    if s.len() > 0 {
        let e = items_le64(s);
        lemma_items_le64_len(s.drop_first());
        assert(e.subrange(0, 8) =~= u64_le(s.first()));
        lemma_u64_le_round(s.first());
        assert(e.skip(8) =~= items_le64(s.drop_first()));
        lemma_items_round64(s.drop_first());
        assert(items_from_le64(e) =~= s);
    }
}

/// Reading back an encoded element sequence returns it.
pub proof fn lemma_items_round32(s: Seq<u32>)
    ensures
        items_from_le32(items_le32(s)) == s,
    decreases s.len(),
{
    if s.len() > 0 {
        let e = items_le32(s);
        lemma_items_le32_len(s.drop_first());
        assert(e.subrange(0, 4) =~= u32_le(s.first()));
        lemma_u32_le_round(s.first());
        assert(e.skip(4) =~= items_le32(s.drop_first()));
        lemma_items_round32(s.drop_first());
        assert(items_from_le32(e) =~= s);
    }
}

/// The serialized form of a sketch with 64-bit elements.
pub open spec fn encode64(k: u16, items: Seq<u64>) -> Seq<u8> {
    seq![MAGIC_0, MAGIC_1, TAG_64] + u16_le(k) + u64_le(items.len() as u64) + items_le64(items)
}

/// The serialized form of a sketch with 32-bit elements.
pub open spec fn encode32(k: u16, items: Seq<u32>) -> Seq<u8> {
    seq![MAGIC_0, MAGIC_1, TAG_32] + u16_le(k) + u64_le(items.len() as u64) + items_le32(items)
}

/// What a byte sequence deserializes to as a sketch with 64-bit elements:
/// the resolution and the elements, or nothing if the sequence is not a
/// well-formed serialized form.
pub open spec fn decode64(b: Seq<u8>) -> Option<(u16, Seq<u64>)> {
    if b.len() < 13 {
        None
    } else if b[0] != MAGIC_0 || b[1] != MAGIC_1 || b[2] != TAG_64 {
        None
    } else {
        let k = u16_from_le(b[3], b[4]);
        let n = u64_from_le(b.subrange(5, 13));
        if k < 8 {
            None
        } else if b.len() - 13 != 8 * (n as int) {
            None
        } else {
            Some((k, items_from_le64(b.skip(13))))
        }
    }
}

/// What a byte sequence deserializes to as a sketch with 32-bit elements.
pub open spec fn decode32(b: Seq<u8>) -> Option<(u16, Seq<u32>)> {
    if b.len() < 13 {
        None
    } else if b[0] != MAGIC_0 || b[1] != MAGIC_1 || b[2] != TAG_32 {
        None
    } else {
        let k = u16_from_le(b[3], b[4]);
        let n = u64_from_le(b.subrange(5, 13));
        if k < 8 {
            None
        } else if b.len() - 13 != 4 * (n as int) {
            None
        } else {
            Some((k, items_from_le32(b.skip(13))))
        }
    }
}

/// Deserializing the serialized form of any sketch state with a valid
/// resolution reproduces that state exactly.
pub proof fn lemma_codec64_round_trip(k: u16, items: Seq<u64>)
    requires
        k >= 8,
        items.len() <= u64::MAX,
    ensures
        decode64(encode64(k, items)) == Some((k, items)),
{
    let e = encode64(k, items);
    lemma_items_le64_len(items);
    assert(e.len() == 13 + 8 * items.len());
    assert(e[0] == MAGIC_0 && e[1] == MAGIC_1 && e[2] == TAG_64);
    assert(e[3] == u16_le(k)[0] && e[4] == u16_le(k)[1]);
    lemma_u16_le_round(k);
    assert(u16_from_le(e[3], e[4]) == k);
    let nv = items.len() as u64;
    assert(e.subrange(5, 13) =~= u64_le(nv));
    lemma_u64_le_round(nv);
    assert(u64_from_le(e.subrange(5, 13)) == nv);
    assert(nv as int == items.len());
    assert(e.len() - 13 == 8 * (nv as int));
    assert(e.skip(13) =~= items_le64(items));
    lemma_items_round64(items);
}

/// Deserializing the serialized form of any sketch state with a valid
/// resolution reproduces that state exactly.
pub proof fn lemma_codec32_round_trip(k: u16, items: Seq<u32>)
    requires
        k >= 8,
        items.len() <= u64::MAX,
    ensures
        decode32(encode32(k, items)) == Some((k, items)),
{
    let e = encode32(k, items);
    lemma_items_le32_len(items);
    assert(e.len() == 13 + 4 * items.len());
    assert(e[0] == MAGIC_0 && e[1] == MAGIC_1 && e[2] == TAG_32);
    assert(e[3] == u16_le(k)[0] && e[4] == u16_le(k)[1]);
    lemma_u16_le_round(k);
    assert(u16_from_le(e[3], e[4]) == k);
    let nv = items.len() as u64;
    assert(e.subrange(5, 13) =~= u64_le(nv));
    lemma_u64_le_round(nv);
    assert(u64_from_le(e.subrange(5, 13)) == nv);
    assert(nv as int == items.len());
    assert(e.len() - 13 == 4 * (nv as int));
    assert(e.skip(13) =~= items_le32(items));
    lemma_items_round32(items);
}

/// Appends the two little-endian bytes of a 16-bit value.
fn push_u16_le(out: &mut Vec<u8>, x: u16)
    ensures
        final(out)@ == old(out)@ + u16_le(x),
{
    out.push((x & 0xFF) as u8);
    out.push(((x >> 8) & 0xFF) as u8);
    proof {
        assert(out@ =~= old(out)@ + u16_le(x));
    }
}

/// Appends the eight little-endian bytes of a 64-bit value.
fn push_u64_le(out: &mut Vec<u8>, x: u64)
    ensures
        final(out)@ == old(out)@ + u64_le(x),
{
    out.push((x & 0xFF) as u8);
    out.push(((x >> 8) & 0xFF) as u8);
    out.push(((x >> 16) & 0xFF) as u8);
    out.push(((x >> 24) & 0xFF) as u8);
    out.push(((x >> 32) & 0xFF) as u8);
    out.push(((x >> 40) & 0xFF) as u8);
    out.push(((x >> 48) & 0xFF) as u8);
    out.push(((x >> 56) & 0xFF) as u8);
    proof {
        assert(out@ =~= old(out)@ + u64_le(x));
    }
}

/// Appends the four little-endian bytes of a 32-bit value.
fn push_u32_le(out: &mut Vec<u8>, x: u32)
    ensures
        final(out)@ == old(out)@ + u32_le(x),
{
    out.push((x & 0xFF) as u8);
    out.push(((x >> 8) & 0xFF) as u8);
    out.push(((x >> 16) & 0xFF) as u8);
    out.push(((x >> 24) & 0xFF) as u8);
    proof {
        assert(out@ =~= old(out)@ + u32_le(x));
    }
}

/// Reads the 64-bit value stored little-endian at the given offset.
fn read_u64_le(b: &Vec<u8>, off: usize) -> (r: u64)
    requires
        off + 8 <= b@.len(),
    ensures
        r == u64_from_le(b@.subrange(off as int, off as int + 8)),
{
    let blen = b.len();
    let r = (b[off] as u64) | ((b[off + 1] as u64) << 8) | ((b[off + 2] as u64) << 16) | ((b[off
        + 3] as u64) << 24) | ((b[off + 4] as u64) << 32) | ((b[off + 5] as u64) << 40) | ((b[off
        + 6] as u64) << 48) | ((b[off + 7] as u64) << 56);
    proof {
        let s = b@.subrange(off as int, off as int + 8);
        assert(s[0] == b@[off as int] && s[1] == b@[off as int + 1] && s[2] == b@[off as int + 2]
            && s[3] == b@[off as int + 3] && s[4] == b@[off as int + 4] && s[5] == b@[off as int
            + 5] && s[6] == b@[off as int + 6] && s[7] == b@[off as int + 7]);
    }
    r
}

/// Reads the 32-bit value stored little-endian at the given offset.
fn read_u32_le(b: &Vec<u8>, off: usize) -> (r: u32)
    requires
        off + 4 <= b@.len(),
    ensures
        r == u32_from_le(b@.subrange(off as int, off as int + 4)),
{
    let blen = b.len();
    let r = (b[off] as u32) | ((b[off + 1] as u32) << 8) | ((b[off + 2] as u32) << 16) | ((b[off
        + 3] as u32) << 24);
    proof {
        let s = b@.subrange(off as int, off as int + 4);
        assert(s[0] == b@[off as int] && s[1] == b@[off as int + 1] && s[2] == b@[off as int + 2]
            && s[3] == b@[off as int + 3]);
    }
    r
}

/// Builds the serialized form of a sketch with 64-bit elements.
#[verifier::loop_isolation(false)]
pub fn encode_sketch64(k: u16, items: &Vec<u64>) -> (r: Vec<u8>)
    ensures
        r@ == encode64(k, items@),
{
    let mut out: Vec<u8> = Vec::new();
    out.push(MAGIC_0);
    out.push(MAGIC_1);
    out.push(TAG_64);
    push_u16_le(&mut out, k);
    let n = items.len();
    push_u64_le(&mut out, n as u64);
    let ghost header = seq![MAGIC_0, MAGIC_1, TAG_64] + u16_le(k) + u64_le(n as u64);
    proof {
        assert(out@ =~= header);
        assert(items_le64(items@.subrange(0, 0)) =~= Seq::<u8>::empty());
        assert(out@ =~= header + items_le64(items@.subrange(0, 0)));
    }
    let mut i: usize = 0;
    while i < n
        invariant
            i <= n == items@.len(),
            out@ == header + items_le64(items@.subrange(0, i as int)),
        decreases n - i,
    {
        push_u64_le(&mut out, items[i]);
        proof {
            lemma_items_le64_push(items@.subrange(0, i as int), items@[i as int]);
            assert(items@.subrange(0, i + 1) =~= items@.subrange(0, i as int).push(
                items@[i as int],
            ));
            assert(out@ =~= header + items_le64(items@.subrange(0, i + 1)));
        }
        i = i + 1;
    }
    proof {
        assert(items@.subrange(0, n as int) =~= items@);
        assert(out@ =~= encode64(k, items@));
    }
    out
}

/// Builds the serialized form of a sketch with 32-bit elements.
#[verifier::loop_isolation(false)]
pub fn encode_sketch32(k: u16, items: &Vec<u32>) -> (r: Vec<u8>)
    ensures
        r@ == encode32(k, items@),
{
    let mut out: Vec<u8> = Vec::new();
    out.push(MAGIC_0);
    out.push(MAGIC_1);
    out.push(TAG_32);
    push_u16_le(&mut out, k);
    let n = items.len();
    push_u64_le(&mut out, n as u64);
    let ghost header = seq![MAGIC_0, MAGIC_1, TAG_32] + u16_le(k) + u64_le(n as u64);
    proof {
        assert(out@ =~= header);
        assert(items_le32(items@.subrange(0, 0)) =~= Seq::<u8>::empty());
        assert(out@ =~= header + items_le32(items@.subrange(0, 0)));
    }
    let mut i: usize = 0;
    while i < n
        invariant
            i <= n == items@.len(),
            out@ == header + items_le32(items@.subrange(0, i as int)),
        decreases n - i,
    {
        push_u32_le(&mut out, items[i]);
        proof {
            lemma_items_le32_push(items@.subrange(0, i as int), items@[i as int]);
            assert(items@.subrange(0, i + 1) =~= items@.subrange(0, i as int).push(
                items@[i as int],
            ));
            assert(out@ =~= header + items_le32(items@.subrange(0, i + 1)));
        }
        i = i + 1;
    }
    proof {
        assert(items@.subrange(0, n as int) =~= items@);
        assert(out@ =~= encode32(k, items@));
    }
    out
}

/// Parses the serialized form of a sketch with 64-bit elements; returns the
/// resolution and the elements exactly when the bytes are well-formed.
#[verifier::loop_isolation(false)]
pub fn decode_sketch64(b: &Vec<u8>) -> (r: Option<(u16, Vec<u64>)>)
    ensures
        match r {
            Some(p) => decode64(b@) == Some((p.0, p.1@)),
            None => decode64(b@) is None,
        },
{
    let len = b.len();
    if len < HEADER_LEN {
        return None;
    }
    if b[0] != MAGIC_0 || b[1] != MAGIC_1 || b[2] != TAG_64 {
        return None;
    }
    let k = (b[3] as u16) | ((b[4] as u16) << 8);
    proof {
        assert(k == u16_from_le(b@[3], b@[4]));
    }
    if k < 8 {
        return None;
    }
    let n = read_u64_le(b, 5);
    let body = len - HEADER_LEN;
    let cnt = body / 8;
    if body % 8 != 0 || n != cnt as u64 {
        proof {
            assert(b@.len() - 13 != 8 * (n as int));
        }
        return None;
    }
    proof {
        assert(b@.len() - 13 == 8 * (n as int));
    }
    let mut items: Vec<u64> = Vec::new();
    let mut i: usize = 0;
    while i < cnt
        invariant
            i <= cnt,
            len == b@.len(),
            13 + 8 * cnt == len,
            items@.len() == i,
            items_le64(items@) == b@.subrange(13, 13 + 8 * i as int),
        decreases cnt - i,
    {
        let x = read_u64_le(b, HEADER_LEN + 8 * i);
        proof {
            lemma_items_le64_push(items@, x);
            lemma_u64_from_le_round(b@.subrange(13 + 8 * i as int, 13 + 8 * i as int + 8));
            assert(u64_le(x) == b@.subrange(13 + 8 * i as int, 13 + 8 * i as int + 8));
            assert(b@.subrange(13, 13 + 8 * (i + 1)) =~= b@.subrange(13, 13 + 8 * i as int)
                + b@.subrange(13 + 8 * i as int, 13 + 8 * i as int + 8));
        }
        items.push(x);
        proof {
            assert(items_le64(items@) =~= b@.subrange(13, 13 + 8 * (i + 1)));
        }
        i = i + 1;
    }
    proof {
        assert(items_le64(items@) =~= b@.skip(13));
        lemma_items_round64(items@);
        assert(items_from_le64(b@.skip(13)) == items@);
    }
    Some((k, items))
}

/// Parses the serialized form of a sketch with 32-bit elements; returns the
/// resolution and the elements exactly when the bytes are well-formed.
#[verifier::loop_isolation(false)]
pub fn decode_sketch32(b: &Vec<u8>) -> (r: Option<(u16, Vec<u32>)>)
    ensures
        match r {
            Some(p) => decode32(b@) == Some((p.0, p.1@)),
            None => decode32(b@) is None,
        },
{
    let len = b.len();
    if len < HEADER_LEN {
        return None;
    }
    if b[0] != MAGIC_0 || b[1] != MAGIC_1 || b[2] != TAG_32 {
        return None;
    }
    let k = (b[3] as u16) | ((b[4] as u16) << 8);
    proof {
        assert(k == u16_from_le(b@[3], b@[4]));
    }
    if k < 8 {
        return None;
    }
    let n = read_u64_le(b, 5);
    let body = len - HEADER_LEN;
    let cnt = body / 4;
    if body % 4 != 0 || n != cnt as u64 {
        proof {
            assert(b@.len() - 13 != 4 * (n as int));
        }
        return None;
    }
    proof {
        assert(b@.len() - 13 == 4 * (n as int));
    }
    let mut items: Vec<u32> = Vec::new();
    let mut i: usize = 0;
    while i < cnt
        invariant
            i <= cnt,
            len == b@.len(),
            13 + 4 * cnt == len,
            items@.len() == i,
            items_le32(items@) == b@.subrange(13, 13 + 4 * i as int),
        decreases cnt - i,
    {
        let x = read_u32_le(b, HEADER_LEN + 4 * i);
        proof {
            lemma_items_le32_push(items@, x);
            lemma_u32_from_le_round(b@.subrange(13 + 4 * i as int, 13 + 4 * i as int + 4));
            assert(u32_le(x) == b@.subrange(13 + 4 * i as int, 13 + 4 * i as int + 4));
            assert(b@.subrange(13, 13 + 4 * (i + 1)) =~= b@.subrange(13, 13 + 4 * i as int)
                + b@.subrange(13 + 4 * i as int, 13 + 4 * i as int + 4));
        }
        items.push(x);
        proof {
            assert(items_le32(items@) =~= b@.subrange(13, 13 + 4 * (i + 1)));
        }
        i = i + 1;
    }
    proof {
        assert(items_le32(items@) =~= b@.skip(13));
        lemma_items_round32(items@);
        assert(items_from_le32(b@.skip(13)) == items@);
    }
    Some((k, items))
}

} // verus!
