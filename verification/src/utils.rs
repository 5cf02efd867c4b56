//! Bit-level utilities: reading and setting single bits of a byte string in
//! MSB-first order, and the length of the longest common bit prefix of two
//! byte strings. These are the only place where the bit ordering of paths is
//! defined; everything else goes through them.

use vstd::prelude::*;

verus! {

/// True iff bit `k` (0 = most significant) of byte `b` is set.
pub open spec fn byte_bit(b: u8, k: int) -> bool {
    b & (1u8 << ((7 - k) as u8)) != 0
}

/// The bit at `position` of `data`, MSB-first: bit 0 is the most significant
/// bit of byte 0, bit `8*len - 1` the least significant bit of the last byte.
pub open spec fn bit_of(data: Seq<u8>, position: int) -> bool {
    byte_bit(data[position / 8], position % 8)
}

/// A sequence of `len` zero bytes.
pub open spec fn zero_bytes(len: int) -> Seq<u8> {
    Seq::new(len as nat, |i: int| 0u8)
}

/// `data` after setting bit `position` (MSB-first), first padding `data`
/// with zero bytes so that the byte holding that bit exists.
pub open spec fn set_bit_seq(data: Seq<u8>, position: int) -> Seq<u8> {
    let padded = if data.len() > position / 8 {
        data
    } else {
        data + zero_bytes(position / 8 + 1 - data.len())
    };
    padded.update(position / 8, padded[position / 8] | (1u8 << ((7 - position % 8) as u8)))
}

/// 8 times the length of the shorter of the two byte strings: the number of
/// bit positions at which both are defined.
pub open spec fn min_bits(a: Seq<u8>, b: Seq<u8>) -> int {
    if a.len() <= b.len() {
        8 * a.len() as int
    } else {
        8 * b.len() as int
    }
}

/// Helper for `common_prefix_of`: the first position at or after `i` where
/// the bits of `a` and `b` differ, or `min_bits` if they never do.
pub open spec fn common_prefix_from(a: Seq<u8>, b: Seq<u8>, i: int) -> int
    decreases min_bits(a, b) - i,
{
    if i < 0 || i >= min_bits(a, b) {
        i
    } else if bit_of(a, i) == bit_of(b, i) {
        common_prefix_from(a, b, i + 1)
    } else {
        i
    }
}

/// The length of the longest common bit prefix of `a` and `b`, compared
/// MSB-first; at most `min_bits(a, b)`.
pub open spec fn common_prefix_of(a: Seq<u8>, b: Seq<u8>) -> int {
    common_prefix_from(a, b, 0)
}

/// Setting one bit of a byte sets that bit and leaves the others alone.
proof fn lemma_byte_or_bit(b: u8, m1: u8, m2: u8)
    by (bit_vector)
    requires
        m1 < 8,
        m2 < 8,
    ensures
        ((b | (1u8 << m1)) & (1u8 << m1)) != 0,
        m1 != m2 ==> (((b | (1u8 << m1)) & (1u8 << m2)) != 0) == ((b & (1u8 << m2)) != 0),
        (0u8 & (1u8 << m2)) == 0,
{
}

/// The bits of `set_bit_seq(data, p)`: bit `p` is set, every other bit is
/// as it was (false in the zero-padded growth).
pub proof fn lemma_set_bit_seq_bits(data: Seq<u8>, p: int)
    requires
        p >= 0,
    ensures
        ({
            let r = set_bit_seq(data, p);
            &&& r.len() == if data.len() > p / 8 {
                data.len() as int
            } else {
                p / 8 + 1
            }
            &&& bit_of(r, p)
            &&& forall|q: int|
                0 <= q && q != p && q / 8 < r.len() ==> #[trigger] bit_of(r, q) == (q / 8
                    < data.len() && bit_of(data, q))
        }),
{
    let r = set_bit_seq(data, p);
    let padded = if data.len() > p / 8 {
        data
    } else {
        data + zero_bytes(p / 8 + 1 - data.len())
    };
    let m1 = (7 - p % 8) as u8;
    assert(bit_of(r, p)) by {
        lemma_byte_or_bit(padded[p / 8], m1, m1);
    }
    assert forall|q: int| 0 <= q && q != p && q / 8 < r.len() implies #[trigger] bit_of(r, q) == (
    q / 8 < data.len() && bit_of(data, q)) by {
        let m2 = (7 - q % 8) as u8;
        lemma_byte_or_bit(padded[p / 8], m1, m2);
        if q / 8 == p / 8 {
            assert(m1 != m2);
            assert(bit_of(r, q) == byte_bit(padded[p / 8], q % 8));
            if q / 8 >= data.len() {
                assert(padded[q / 8] == 0u8);
                lemma_byte_or_bit(0u8, m1, m2);
            }
        } else {
            assert(r[q / 8] == padded[q / 8]);
            if q / 8 >= data.len() {
                assert(padded[q / 8] == 0u8);
                lemma_byte_or_bit(0u8, m1, m2);
            }
        }
    }
}

/// A byte string shares all of its bits with itself.
pub proof fn lemma_common_prefix_from_same(a: Seq<u8>, i: int)
    requires
        0 <= i <= 8 * a.len(),
    ensures
        common_prefix_from(a, a, i) == 8 * a.len(),
    decreases 8 * a.len() - i,
{
    if i < 8 * a.len() {
        lemma_common_prefix_from_same(a, i + 1);
    }
}

/// The common prefix length does not depend on the order of the two byte
/// strings.
pub proof fn lemma_common_prefix_sym(a: Seq<u8>, b: Seq<u8>, i: int)
    ensures
        common_prefix_from(a, b, i) == common_prefix_from(b, a, i),
    decreases min_bits(a, b) - i,
{
    if 0 <= i < min_bits(a, b) && bit_of(a, i) == bit_of(b, i) {
        lemma_common_prefix_sym(a, b, i + 1);
    }
}

/// Up to the common prefix length the bits of the two byte strings agree,
/// and at it — if it is not the full shared width — they differ.
pub proof fn lemma_common_prefix_props(a: Seq<u8>, b: Seq<u8>, i: int)
    requires
        0 <= i <= min_bits(a, b),
    ensures
        i <= common_prefix_from(a, b, i) <= min_bits(a, b),
        forall|q: int|
            i <= q < common_prefix_from(a, b, i) ==> #[trigger] bit_of(a, q) == bit_of(b, q),
        common_prefix_from(a, b, i) < min_bits(a, b) ==> bit_of(a, common_prefix_from(a, b, i))
            != bit_of(b, common_prefix_from(a, b, i)),
    decreases min_bits(a, b) - i,
{
    if i < min_bits(a, b) && bit_of(a, i) == bit_of(b, i) {
        lemma_common_prefix_props(a, b, i + 1);
    }
}

/// Two unequal bytes differ in at least one of their eight bits.
proof fn lemma_byte_of_bits(b1: u8, b2: u8)
    by (bit_vector)
    requires
        ((b1 & (1u8 << 0u8)) != 0) == ((b2 & (1u8 << 0u8)) != 0),
        ((b1 & (1u8 << 1u8)) != 0) == ((b2 & (1u8 << 1u8)) != 0),
        ((b1 & (1u8 << 2u8)) != 0) == ((b2 & (1u8 << 2u8)) != 0),
        ((b1 & (1u8 << 3u8)) != 0) == ((b2 & (1u8 << 3u8)) != 0),
        ((b1 & (1u8 << 4u8)) != 0) == ((b2 & (1u8 << 4u8)) != 0),
        ((b1 & (1u8 << 5u8)) != 0) == ((b2 & (1u8 << 5u8)) != 0),
        ((b1 & (1u8 << 6u8)) != 0) == ((b2 & (1u8 << 6u8)) != 0),
        ((b1 & (1u8 << 7u8)) != 0) == ((b2 & (1u8 << 7u8)) != 0),
    ensures
        b1 == b2,
{
}

/// Byte strings of equal length that agree on every bit are equal.
pub proof fn lemma_bits_eq_bytes(a: Seq<u8>, b: Seq<u8>)
    requires
        a.len() == b.len(),
        forall|q: int| 0 <= q < 8 * a.len() ==> #[trigger] bit_of(a, q) == bit_of(b, q),
    ensures
        a == b,
{
    assert forall|i: int| 0 <= i < a.len() implies a[i] == b[i] by {
        assert forall|k: int| 0 <= k < 8 implies byte_bit(a[i], k) == byte_bit(b[i], k) by {
            let q = 8 * i + k;
            assert(q / 8 == i && q % 8 == k);
            assert(bit_of(a, q) == bit_of(b, q));
        }
        assert(byte_bit(a[i], 0) == byte_bit(b[i], 0));
        assert(byte_bit(a[i], 1) == byte_bit(b[i], 1));
        assert(byte_bit(a[i], 2) == byte_bit(b[i], 2));
        assert(byte_bit(a[i], 3) == byte_bit(b[i], 3));
        assert(byte_bit(a[i], 4) == byte_bit(b[i], 4));
        assert(byte_bit(a[i], 5) == byte_bit(b[i], 5));
        assert(byte_bit(a[i], 6) == byte_bit(b[i], 6));
        assert(byte_bit(a[i], 7) == byte_bit(b[i], 7));
        lemma_byte_of_bits(a[i], b[i]);
    }
    assert(a =~= b);
}

/// Reads the bit at `position` of `data`, MSB-first; 1 if set, 0 if clear.
pub fn get_msb_at(data: &[u8], position: usize) -> (r: u8)
    requires
        position / 8 < data@.len(),
    ensures
        r == 1 <==> bit_of(data@, position as int),
        r == 0 <==> !bit_of(data@, position as int),
{
    let index = position / 8;
    let p: u8 = (position % 8) as u8;
    let b = data[index];
    if b & (1u8 << (7 - p)) > 0 {
        1
    } else {
        0
    }
}

/// Sets the bit at `position` of `data`, MSB-first, growing `data` with zero
/// bytes first so that the byte holding the bit exists.
pub fn set_msb_at(data: &mut Vec<u8>, position: usize)
    ensures
        final(data)@ == set_bit_seq(old(data)@, position as int),
{
    let index = position / 8;
    let ghost orig = data@;
    while data.len() <= index
        invariant
            orig.len() <= data@.len(),
            orig.len() > index ==> data@ == orig,
            data@.len() <= index + 1 || data@ == orig,
            data@.subrange(0, orig.len() as int) == orig,
            forall|j: int| orig.len() <= j < data@.len() ==> data@[j] == 0u8,
        decreases index + 1 - data@.len(),
    {
        data.push(0u8);
        proof {
            assert(data@.subrange(0, orig.len() as int) == orig);
        }
    }
    proof {
        if orig.len() > index {
            assert(data@ =~= orig);
        } else {
            assert(data@ =~= orig + zero_bytes(index + 1 - orig.len()));
        }
    }
    let p: u8 = (position % 8) as u8;
    let b = data[index];
    data.set(index, b | (1u8 << (7 - p)));
}

/// The length of the longest common bit prefix of `v1` and `v2`, MSB-first.
pub fn common_prefix(v1: &[u8], v2: &[u8]) -> (r: usize)
    requires
        8 * v1@.len() <= usize::MAX,
        8 * v2@.len() <= usize::MAX,
    ensures
        r == common_prefix_of(v1@, v2@),
        r <= min_bits(v1@, v2@),
{
    let bits = if v1.len() <= v2.len() { 8 * v1.len() } else { 8 * v2.len() };
    let mut count: usize = 0;
    while count < bits
        invariant
            bits == min_bits(v1@, v2@),
            0 <= count <= bits,
            common_prefix_of(v1@, v2@) == common_prefix_from(v1@, v2@, count as int),
        decreases bits - count,
    {
        let b1 = get_msb_at(v1, count);
        let b2 = get_msb_at(v2, count);
        if b1 != b2 {
            return count;
        }
        count += 1;
    }
    count
}

/// True iff the two byte strings are equal.
pub fn bytes_eq(a: &[u8], b: &[u8]) -> (r: bool)
    ensures
        r <==> a@ == b@,
{
    if a.len() != b.len() {
        return false;
    }
    let mut i: usize = 0;
    while i < a.len()
        invariant
            a@.len() == b@.len(),
            0 <= i <= a@.len(),
            forall|j: int| 0 <= j < i ==> a@[j] == b@[j],
        decreases a@.len() - i,
    {
        if a[i] != b[i] {
            return false;
        }
        i += 1;
    }
    proof {
        assert(a@ =~= b@);
    }
    true
}

} // verus!
