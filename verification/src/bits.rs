//! Reading single bits and small numbers out of byte buffers.
use vstd::prelude::*;
use vstd::arithmetic::power2::{pow2, lemma2_to64};

verus! {

/// Bit `i` of `buf` when each byte is read from its least significant bit.
pub open spec fn lsb_bit(buf: Seq<u8>, i: int) -> bool {
    (buf[i / 8] >> ((i % 8) as u8)) & 1u8 == 1u8
}

/// Bit `i` of `buf` when each byte is read from its most significant bit.
pub open spec fn msb_bit(buf: Seq<u8>, i: int) -> bool {
    (buf[i / 8] >> ((7 - i % 8) as u8)) & 1u8 == 1u8
}

/// The `n` bits of `buf` starting at bit `idx`, most significant bit of each byte first.
pub open spec fn msb_bits(buf: Seq<u8>, idx: int, n: int) -> Seq<bool> {
    Seq::new(n as nat, |k: int| msb_bit(buf, idx + k))
}

/// The `n` bits of `buf` starting at bit `idx`, least significant bit of each byte first.
pub open spec fn lsb_bits(buf: Seq<u8>, idx: int, n: int) -> Seq<bool> {
    Seq::new(n as nat, |k: int| lsb_bit(buf, idx + k))
}

/// The whole buffer as a stream of bits, most significant bit of each byte first.
pub open spec fn msb_stream(buf: Seq<u8>) -> Seq<bool> {
    Seq::new(8 * buf.len(), |i: int| msb_bit(buf, i))
}

/// The value of a bit sequence read with its first bit as the most significant one.
pub open spec fn be_value(bits: Seq<bool>) -> nat
    decreases bits.len(),
{
    if bits.len() == 0 {
        0
    } else {
        2 * be_value(bits.drop_last()) + (if bits.last() { 1nat } else { 0nat })
    }
}

/// The value of a bit sequence read with its first bit as the least significant one.
pub open spec fn le_value(bits: Seq<bool>) -> nat
    decreases bits.len(),
{
    if bits.len() == 0 {
        0
    } else {
        (if bits.first() { 1nat } else { 0nat }) + 2 * le_value(bits.drop_first())
    }
}

/// A big-endian value is below `2^len`.
pub proof fn lemma_be_value_bound(bits: Seq<bool>)
    ensures
        be_value(bits) < pow2(bits.len()),
    decreases bits.len(),
{
    reveal(pow2);
    if bits.len() > 0 {
        lemma_be_value_bound(bits.drop_last());
        vstd::arithmetic::power2::lemma_pow2_unfold(bits.len());
    } else {
        lemma2_to64();
    }
}

/// A little-endian value is below `2^len`.
pub proof fn lemma_le_value_bound(bits: Seq<bool>)
    ensures
        le_value(bits) < pow2(bits.len()),
    decreases bits.len(),
{
    if bits.len() > 0 {
        lemma_le_value_bound(bits.drop_first());
        vstd::arithmetic::power2::lemma_pow2_unfold(bits.len());
    } else {
        lemma2_to64();
    }
}

/// Prepending a bit to a big-endian sequence adds its weight `2^len`.
pub proof fn lemma_be_value_prepend(b: bool, bits: Seq<bool>)
    ensures
        be_value(seq![b] + bits) == (if b { pow2(bits.len()) } else { 0 }) + be_value(bits),
    decreases bits.len(),
{
    if bits.len() == 0 {
        lemma2_to64();
        assert((seq![b] + bits).drop_last() =~= Seq::<bool>::empty());
        assert(be_value(Seq::<bool>::empty()) == 0);
    } else {
        let s = seq![b] + bits;
        assert(s.drop_last() =~= seq![b] + bits.drop_last());
        assert(s.last() == bits.last());
        lemma_be_value_prepend(b, bits.drop_last());
        vstd::arithmetic::power2::lemma_pow2_unfold(bits.len());
        assert(be_value(s) == 2 * be_value(s.drop_last()) + (if s.last() { 1nat } else { 0nat }));
        assert(be_value(bits) == 2 * be_value(bits.drop_last()) + (if bits.last() { 1nat } else { 0nat }));
    }
}

/// Appending a bit to a little-endian sequence adds its weight `2^len`.
pub proof fn lemma_le_value_append(bits: Seq<bool>, b: bool)
    ensures
        le_value(bits.push(b)) == le_value(bits) + (if b { pow2(bits.len()) } else { 0 }),
    decreases bits.len(),
{
    if bits.len() == 0 {
        lemma2_to64();
        assert(bits.push(b).drop_first() =~= Seq::<bool>::empty());
        assert(le_value(Seq::<bool>::empty()) == 0);
        assert(le_value(bits) == 0);
    } else {
        let s = bits.push(b);
        assert(s.drop_first() =~= bits.drop_first().push(b));
        assert(s.first() == bits.first());
        lemma_le_value_append(bits.drop_first(), b);
        vstd::arithmetic::power2::lemma_pow2_unfold(bits.len());
        assert(le_value(s) == (if s.first() { 1nat } else { 0nat }) + 2 * le_value(s.drop_first()));
        assert(le_value(bits) == (if bits.first() { 1nat } else { 0nat }) + 2 * le_value(bits.drop_first()));
    }
}

/// `1` for a set bit, `0` for a clear one.
pub open spec fn bit_value(b: bool) -> u8 {
    if b {
        1
    } else {
        0
    }
}

/// The eight bits of `x`, each shifted back to its place, add up to `x`.
proof fn lemma_shifted_bits_sum(x: u8)
    by (bit_vector)
    ensures
        x == (if (x >> 0u8) & 1u8 == 1u8 { 1u8 } else { 0u8 }) + ((if (x >> 1u8) & 1u8 == 1u8 { 1u8 } else { 0u8 })
            << 1u8) + ((if (x >> 2u8) & 1u8 == 1u8 { 1u8 } else { 0u8 }) << 2u8) + ((if (x >> 3u8) & 1u8 == 1u8 {
            1u8
        } else {
            0u8
        }) << 3u8) + ((if (x >> 4u8) & 1u8 == 1u8 { 1u8 } else { 0u8 }) << 4u8) + ((if (x >> 5u8) & 1u8 == 1u8 {
            1u8
        } else {
            0u8
        }) << 5u8) + ((if (x >> 6u8) & 1u8 == 1u8 { 1u8 } else { 0u8 }) << 6u8) + ((if (x >> 7u8) & 1u8 == 1u8 {
            1u8
        } else {
            0u8
        }) << 7u8),
{
}

/// Law: the eight bits of byte `j`, read least significant first (what `get_bit` gives at
/// `8 * j + i`), each shifted left by `i` and added up, rebuild the byte.
pub proof fn lemma_get_bits_rebuild_byte(buf: Seq<u8>, j: int)
    requires
        0 <= j < buf.len(),
    ensures
        buf[j] == bit_value(lsb_bit(buf, 8 * j)) + (bit_value(lsb_bit(buf, 8 * j + 1)) << 1u8) + (bit_value(
            lsb_bit(buf, 8 * j + 2),
        ) << 2u8) + (bit_value(lsb_bit(buf, 8 * j + 3)) << 3u8) + (bit_value(lsb_bit(buf, 8 * j + 4)) << 4u8)
            + (bit_value(lsb_bit(buf, 8 * j + 5)) << 5u8) + (bit_value(lsb_bit(buf, 8 * j + 6)) << 6u8) + (bit_value(
            lsb_bit(buf, 8 * j + 7),
        ) << 7u8),
{
    assert((8 * j + 0) / 8 == j && (8 * j + 0) % 8 == 0);
    assert((8 * j + 1) / 8 == j && (8 * j + 1) % 8 == 1);
    assert((8 * j + 2) / 8 == j && (8 * j + 2) % 8 == 2);
    assert((8 * j + 3) / 8 == j && (8 * j + 3) % 8 == 3);
    assert((8 * j + 4) / 8 == j && (8 * j + 4) % 8 == 4);
    assert((8 * j + 5) / 8 == j && (8 * j + 5) % 8 == 5);
    assert((8 * j + 6) / 8 == j && (8 * j + 6) % 8 == 6);
    assert((8 * j + 7) / 8 == j && (8 * j + 7) % 8 == 7);
    lemma_shifted_bits_sum(buf[j]);
}

/// Returns the bit at index `idx`, reading each byte from its least significant bit.
pub fn get_bit(buffer: &[u8], idx: usize) -> (bit: bool)
    requires
        idx / 8 < buffer@.len(),
    ensures
        bit == lsb_bit(buffer@, idx as int),
{
    let byte = buffer[idx / 8];
    let bit = (byte >> ((idx % 8) as u8)) & 1;
    1 == bit
}

/// Returns the bit at index `idx`, reading each byte from its most significant bit.
pub fn get_bit_reverse(buffer: &[u8], idx: usize) -> (bit: bool)
    requires
        idx / 8 < buffer@.len(),
    ensures
        bit == msb_bit(buffer@, idx as int),
{
    let byte = buffer[idx / 8];
    let k = (idx % 8) as u8;
    let bit = (byte << k) & 128u8 == 128u8;
    assert(((byte << k) & 128u8 == 128u8) == ((byte >> ((7 - k) as u8)) & 1u8 == 1u8)) by (bit_vector)
        requires k < 8;
    bit
}

/// Bits are read with the first one as the most significant: `[false, true, true]` is 3.
pub fn get_num(bits: &Vec<bool>) -> (num: u16)
    requires
        bits@.len() <= 16,
    ensures
        num == be_value(bits@),
{
    let mut num: u16 = 0;
    let len = bits.len();
    let mut i: usize = 1;
    assert(bits@.subrange(len as int, len as int) =~= Seq::<bool>::empty());
    while i < len + 1
        invariant
            1 <= i <= len + 1,
            len == bits@.len(),
            len <= 16,
            num == be_value(bits@.subrange(len - (i - 1), len as int)),
        decreases len + 1 - i,
    {
        let ghost old_tail = bits@.subrange(len - (i - 1), len as int);
        let ghost new_tail = bits@.subrange(len - i, len as int);
        proof {
            assert(new_tail =~= seq![bits@[len - i]] + old_tail);
            lemma_be_value_prepend(bits@[len - i], old_tail);
            lemma_be_value_bound(old_tail);
            vstd::bits::lemma_u16_pow2_no_overflow((i - 1) as nat);
            vstd::bits::lemma_u16_shl_is_mul(1u16, (i - 1) as u16);
            vstd::arithmetic::power2::lemma_pow2_unfold(i as nat);
            if i < 16 {
                vstd::arithmetic::power2::lemma_pow2_strictly_increases(i as nat, 16);
            }
            lemma2_to64();
        }
        let weight: u16 = 1u16 << ((i - 1) as u16);
        if bits[len - i] {
            num = num + weight;
        }
        i += 1;
    }
    assert(bits@.subrange(0, len as int) =~= bits@);
    num
}

/// Bits are read with the first one as the least significant: `[false, true, true]` is 6.
pub fn get_num_reverse(bits: &Vec<bool>) -> (num: u16)
    requires
        bits@.len() <= 16,
    ensures
        num == le_value(bits@),
{
    let mut num: u16 = 0;
    let len = bits.len();
    let mut i: usize = 0;
    assert(bits@.subrange(0, 0) =~= Seq::<bool>::empty());
    while i < len
        invariant
            0 <= i <= len,
            len == bits@.len(),
            len <= 16,
            num == le_value(bits@.subrange(0, i as int)),
        decreases len - i,
    {
        let ghost old_head = bits@.subrange(0, i as int);
        proof {
            assert(bits@.subrange(0, i + 1) =~= old_head.push(bits@[i as int]));
            lemma_le_value_append(old_head, bits@[i as int]);
            lemma_le_value_bound(old_head);
            vstd::bits::lemma_u16_pow2_no_overflow(i as nat);
            vstd::bits::lemma_u16_shl_is_mul(1u16, i as u16);
            vstd::arithmetic::power2::lemma_pow2_unfold((i + 1) as nat);
            if i + 1 < 16 {
                vstd::arithmetic::power2::lemma_pow2_strictly_increases((i + 1) as nat, 16);
            }
            lemma2_to64();
        }
        let weight: u16 = 1u16 << (i as u16);
        if bits[i] {
            num = num + weight;
        }
        i += 1;
    }
    assert(bits@.subrange(0, len as int) =~= bits@);
    num
}

/// The `n` bits starting at `idx`, each byte read from its least significant bit.
pub fn get_n_bits_regular(buffer: &[u8], idx: usize, n: usize) -> (bits: Vec<bool>)
    requires
        n == 0 || idx + n <= 8 * buffer@.len(),
        idx + n <= usize::MAX + 1,
    ensures
        bits@ == lsb_bits(buffer@, idx as int, n as int),
{
    let mut bits: Vec<bool> = Vec::new();
    let mut i: usize = 0;
    while i < n
        invariant
            i <= n,
            n == 0 || idx + n <= 8 * buffer@.len(),
            idx + n <= usize::MAX + 1,
            bits@ == lsb_bits(buffer@, idx as int, i as int),
        decreases n - i,
    {
        let bit = get_bit(buffer, idx + i);
        bits.push(bit);
        i += 1;
        assert(bits@ =~= lsb_bits(buffer@, idx as int, i as int));
    }
    bits
}

/// The `n` bits starting at `idx`, each byte read from its most significant bit.
pub fn get_n_bits_reverse(buffer: &[u8], idx: usize, n: usize) -> (bits: Vec<bool>)
    requires
        n == 0 || idx + n <= 8 * buffer@.len(),
        idx + n <= usize::MAX + 1,
    ensures
        bits@ == msb_bits(buffer@, idx as int, n as int),
{
    let mut bits: Vec<bool> = Vec::with_capacity(8);
    let mut i: usize = 0;
    while i < n
        invariant
            i <= n,
            n == 0 || idx + n <= 8 * buffer@.len(),
            idx + n <= usize::MAX + 1,
            bits@ == msb_bits(buffer@, idx as int, i as int),
        decreases n - i,
    {
        let bit = get_bit_reverse(buffer, idx + i);
        bits.push(bit);
        i += 1;
        assert(bits@ =~= msb_bits(buffer@, idx as int, i as int));
    }
    bits
}

/// The nine bits starting at `idx`, each byte read from its most significant bit.
pub fn get_9_bits_reverse(buffer: &[u8], idx: usize) -> (bits: [bool; 9])
    requires
        idx + 9 <= 8 * buffer@.len(),
        idx + 9 <= usize::MAX + 1,
    ensures
        bits@ == msb_bits(buffer@, idx as int, 9),
{
    let mut bits = [false; 9];
    let n: usize = 9;
    let mut i: usize = 0;
    while i < n
        invariant
            i <= n,
            n == 9,
            idx + 9 <= 8 * buffer@.len(),
            idx + 9 <= usize::MAX + 1,
            bits@.len() == 9,
            forall|k: int| 0 <= k < i ==> bits@[k] == msb_bit(buffer@, idx + k),
        decreases n - i,
    {
        let bit = get_bit_reverse(buffer, idx + i);
        bits[i] = bit;
        i += 1;
    }
    assert(bits@ =~= msb_bits(buffer@, idx as int, 9));
    bits
}

/// The bits read by `get_n_bits_reverse` are a window of the whole stream.
pub proof fn lemma_msb_bits_window(buf: Seq<u8>, idx: int, n: int)
    requires
        0 <= idx,
        0 <= n,
        idx + n <= 8 * buf.len(),
    ensures
        msb_bits(buf, idx, n) == msb_stream(buf).subrange(idx, idx + n),
{
    assert(msb_bits(buf, idx, n) =~= msb_stream(buf).subrange(idx, idx + n));
}

/// Extending a window by one bit doubles its big-endian value and adds the new bit.
pub proof fn lemma_be_value_extend(s: Seq<bool>, i: int, j: int)
    requires
        0 <= i <= j < s.len(),
    ensures
        be_value(s.subrange(i, j + 1)) == 2 * be_value(s.subrange(i, j)) + (if s[j] { 1nat } else { 0nat }),
{
    let w = s.subrange(i, j + 1);
    assert(w.drop_last() =~= s.subrange(i, j));
    assert(w.last() == s[j]);
}

} // verus!
