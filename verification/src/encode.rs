//! Encoding literals, lengths and distances with the fixed Huffman code.
use vstd::prelude::*;
use vstd::arithmetic::power2::{pow2, lemma2_to64, lemma_pow2_pos, lemma_pow2_unfold, lemma_pow2_strictly_increases};
use vstd::arithmetic::div_mod::{lemma_div_denominator, lemma_basic_div};
use vstd::math::max;
use vstd::arithmetic::div_mod::lemma_fundamental_div_mod;
use crate::bits::{msb_bits, lsb_bits, lsb_bit, msb_bit, msb_stream, get_n_bits_reverse, get_9_bits_reverse, be_value, le_value};
use crate::{DISTANCE_CODES, LENGTH_STARTING};

verus! {

/// The `n` lowest bits of `v`, least significant first.
pub open spec fn le_bits(v: nat, n: nat) -> Seq<bool> {
    Seq::new(n, |k: int| (v / pow2(k as nat)) % 2 == 1)
}

/// The `n` lowest bits of `v`, most significant first.
pub open spec fn be_bits(v: nat, n: nat) -> Seq<bool> {
    Seq::new(n, |k: int| (v / pow2((n - 1 - k) as nat)) % 2 == 1)
}

/// The number of bits needed to write `v` (0 for 0).
pub open spec fn bit_length(v: nat) -> nat
    decreases v,
{
    if v == 0 {
        0
    } else {
        1 + bit_length(v / 2)
    }
}

/// The code of a length symbol (257..=287) in the fixed literal/length code.
pub open spec fn length_code_bits(sym: int) -> Seq<bool> {
    if sym < 280 {
        be_bits((sym - 256) as nat, 7)
    } else {
        be_bits((sym - 88) as nat, 8)
    }
}

/// The code of symbol `sym` (0..=287) in the fixed literal/length code of RFC 1951.
pub open spec fn fixed_code_bits(sym: int) -> Seq<bool> {
    if sym < 144 {
        be_bits((sym + 48) as nat, 8)
    } else if sym < 256 {
        be_bits((sym + 256) as nat, 9)
    } else {
        length_code_bits(sym)
    }
}

/// A value below `2^bit_length(v)`.
pub proof fn lemma_bit_length_bound(v: nat)
    ensures
        v < pow2(bit_length(v)),
    decreases v,
{
    if v == 0 {
        lemma_pow2_pos(0);
    } else {
        lemma_bit_length_bound(v / 2);
        lemma_pow2_unfold(bit_length(v));
    }
}

/// Dividing by `2^k` and then by 2 is dividing by `2^(k+1)`.
pub proof fn lemma_div_pow2_step(v: nat, k: nat)
    ensures
        (v / pow2(k)) / 2 == v / pow2(k + 1),
{
    lemma_pow2_pos(k);
    lemma_pow2_unfold(k + 1);
    lemma_div_denominator(v as int, pow2(k) as int, 2);
}

/// Little-endian bits read back give the value.
pub proof fn lemma_le_bits_value(v: nat, n: nat)
    requires
        v < pow2(n),
    ensures
        le_value(le_bits(v, n)) == v,
    decreases n,
{
    lemma2_to64();
    if n == 0 {
    } else {
        let s = le_bits(v, n);
        assert(s.drop_first() =~= le_bits(v / 2, (n - 1) as nat)) by {
            assert forall|k: int| 0 <= k < n - 1 implies #[trigger] s.drop_first()[k] == le_bits(
                v / 2,
                (n - 1) as nat,
            )[k] by {
                lemma_pow2_pos(k as nat);
                lemma_div_pow2_step(v, k as nat);
                lemma_div_denominator(v as int, 2, pow2(k as nat) as int);
                lemma_pow2_unfold((k + 1) as nat);
                assert((v / 2) / pow2(k as nat) == v / (2 * pow2(k as nat)));
            }
        }
        lemma_pow2_unfold(n);
        lemma_le_bits_value(v / 2, (n - 1) as nat);
        assert(s[0] == ((v / pow2(0nat)) % 2 == 1));
        assert(pow2(0nat) == 1);
        assert(v / 1 == v);
        assert(s.first() == (v % 2 == 1));
        assert(le_value(s) == (if s.first() { 1nat } else { 0nat }) + 2 * le_value(s.drop_first()));
    }
}

/// Big-endian bits read back give the value.
pub proof fn lemma_be_bits_value(v: nat, n: nat)
    requires
        v < pow2(n),
    ensures
        be_value(be_bits(v, n)) == v,
    decreases n,
{
    lemma2_to64();
    if n == 0 {
    } else {
        let s = be_bits(v, n);
        assert(s.drop_last() =~= be_bits(v / 2, (n - 1) as nat)) by {
            assert forall|k: int| 0 <= k < n - 1 implies #[trigger] s.drop_last()[k] == be_bits(
                v / 2,
                (n - 1) as nat,
            )[k] by {
                let j = (n - 2 - k) as nat;
                lemma_pow2_pos(j);
                lemma_div_denominator(v as int, 2, pow2(j) as int);
                lemma_pow2_unfold(j + 1);
            }
        }
        lemma_pow2_unfold(n);
        lemma_be_bits_value(v / 2, (n - 1) as nat);
        assert(s[n - 1] == ((v / pow2(0nat)) % 2 == 1));
        assert(pow2(0nat) == 1);
        assert(v / 1 == v);
        assert(s.last() == (v % 2 == 1));
        assert(be_value(s) == 2 * be_value(s.drop_last()) + (if s.last() { 1nat } else { 0nat }));
    }
}

/// Read backwards, the little-endian bits are the big-endian ones.
pub proof fn lemma_le_bits_reverse(v: nat, n: nat)
    ensures
        le_bits(v, n).reverse() == be_bits(v, n),
{
    assert(le_bits(v, n).reverse() =~= be_bits(v, n));
}

/// The bits of one byte, most significant first, from bit `8 - n` on.
pub proof fn lemma_byte_msb_bits(x: u8, n: nat)
    requires
        n <= 8,
    ensures
        msb_bits(seq![x], 8 - n, n as int) == be_bits(x as nat, n),
{
    assert forall|k: int| 0 <= k < n implies #[trigger] msb_bits(seq![x], 8 - n, n as int)[k] == be_bits(
        x as nat,
        n,
    )[k] by {
        let i = 8 - n + k;
        let sh = (7 - i % 8) as u8;
        assert(i / 8 == 0 && i % 8 == i);
        vstd::bits::lemma_u8_shr_is_div(x, sh);
        let y = x >> sh;
        assert((y & 1u8 == 1u8) == (y % 2 == 1)) by (bit_vector);
        assert(sh as nat == (n - 1 - k) as nat);
    }
    assert(msb_bits(seq![x], 8 - n, n as int) =~= be_bits(x as nat, n));
}

/// Law: the eight bits of a byte of a buffer, read most significant first or least
/// significant first, rebuild the byte.
pub proof fn lemma_byte_bits_rebuild(buf: Seq<u8>, i: int)
    requires
        0 <= i < buf.len(),
    ensures
        be_value(msb_bits(buf, 8 * i, 8)) == buf[i],
        le_value(lsb_bits(buf, 8 * i, 8)) == buf[i],
{
    let x = buf[i];
    lemma2_to64();
    lemma_byte_msb_bits(x, 8);
    assert forall|k: int| 0 <= k < 8 implies #[trigger] msb_bits(buf, 8 * i, 8)[k] == msb_bits(seq![x], 0, 8)[k] by {
        assert((8 * i + k) / 8 == i && (8 * i + k) % 8 == k) by (nonlinear_arith)
            requires
                0 <= k < 8,
                0 <= i,
        ;
        assert(k / 8 == 0 && k % 8 == k);
    }
    assert(msb_bits(buf, 8 * i, 8) =~= msb_bits(seq![x], 0, 8));
    lemma_be_bits_value(x as nat, 8);
    assert forall|k: int| 0 <= k < 8 implies #[trigger] lsb_bits(buf, 8 * i, 8)[k] == le_bits(x as nat, 8)[k] by {
        assert((8 * i + k) / 8 == i && (8 * i + k) % 8 == k) by (nonlinear_arith)
            requires
                0 <= k < 8,
                0 <= i,
        ;
        let sh = k as u8;
        vstd::bits::lemma_u8_shr_is_div(x, sh);
        let y = x >> sh;
        assert((y & 1u8 == 1u8) == (y % 2 == 1)) by (bit_vector);
    }
    assert(lsb_bits(buf, 8 * i, 8) =~= le_bits(x as nat, 8));
    lemma_le_bits_value(x as nat, 8);
}

/// Law: where the bits of `rev` read most significant first are those of `buf` read least
/// significant first (as `reverse_bits_of_bytes` makes them), reading `n` bits at `idx` of
/// `rev` that way gives what reading them from `buf` the other way gives.
pub proof fn lemma_reversed_reads(rev: Seq<u8>, buf: Seq<u8>, idx: int, n: int)
    requires
        rev.len() == buf.len(),
        msb_stream(rev) == crate::inflate::lsb_stream(buf),
        0 <= idx,
        0 <= n,
        idx + n <= 8 * buf.len(),
    ensures
        msb_bits(rev, idx, n) == lsb_bits(buf, idx, n),
{
    assert forall|k: int| 0 <= k < n implies #[trigger] msb_bits(rev, idx, n)[k] == lsb_bits(buf, idx, n)[k] by {
        assert(msb_stream(rev)[idx + k] == msb_bit(rev, idx + k));
    }
    assert(msb_bits(rev, idx, n) =~= lsb_bits(buf, idx, n));
}

/// Law: for the bytes `rev` that `reverse_bits_of_bytes` makes of `buf`, each bit read least
/// significant first (`get_bit` on `rev`) is the bit of `buf` read most significant first
/// (`get_bit_reverse` on `buf`), and each bit of `rev` read most significant first is the bit
/// of `buf` read least significant first.
pub proof fn lemma_reversed_bit_order(rev: Seq<u8>, buf: Seq<u8>, idx: int)
    requires
        rev.len() == buf.len(),
        msb_stream(rev) == crate::inflate::lsb_stream(buf),
        crate::inflate::lsb_stream(rev) == msb_stream(buf),
        0 <= idx < 8 * buf.len(),
    ensures
        lsb_bit(rev, idx) == msb_bit(buf, idx),
        msb_bit(rev, idx) == lsb_bit(buf, idx),
{
    assert(crate::inflate::lsb_stream(rev)[idx] == lsb_bit(rev, idx));
    assert(msb_stream(buf)[idx] == msb_bit(buf, idx));
    assert(msb_stream(rev)[idx] == msb_bit(rev, idx));
    assert(crate::inflate::lsb_stream(buf)[idx] == lsb_bit(buf, idx));
}

/// The code of length symbol 280 is `11000000`.
proof fn lemma_be_bits_192()
    ensures
        be_bits(192, 8) == seq![true, true, false, false, false, false, false, false],
{
    lemma2_to64();
    let b = be_bits(192, 8);
    assert(b[0] == ((192nat / pow2(7)) % 2 == 1));
    assert(b[1] == ((192nat / pow2(6)) % 2 == 1));
    assert(b[2] == ((192nat / pow2(5)) % 2 == 1));
    assert(b[3] == ((192nat / pow2(4)) % 2 == 1));
    assert(b[4] == ((192nat / pow2(3)) % 2 == 1));
    assert(b[5] == ((192nat / pow2(2)) % 2 == 1));
    assert(b[6] == ((192nat / pow2(1)) % 2 == 1));
    assert(b[7] == ((192nat / pow2(0)) % 2 == 1));
    assert(b =~= seq![true, true, false, false, false, false, false, false]);
}

/// `le_bits(num, ...)` padded with zeros to at least `num_bits` bits.
fn number_to_bool_vec(num: usize, num_bits: usize) -> (bits: Vec<bool>)
    ensures
        bits@ == le_bits(num as nat, max(num_bits as int, bit_length(num as nat) as int) as nat),
{
    if num == 0 {
        let v = vec![false; num_bits];
        proof {
            assert forall|k: int| 0 <= k < num_bits implies !(#[trigger] le_bits(0, num_bits as nat)[k]) by {
                lemma_pow2_pos(k as nat);
            }
            assert(v@ =~= le_bits(0, num_bits as nat));
        }
        return v;
    }
    let ghost orig = num as nat;
    let mut num = num;
    let mut vec: Vec<bool> = Vec::new();
    proof {
        lemma2_to64();
        assert(vec@ =~= le_bits(orig, 0));
    }
    while num > 0
        invariant
            vec@ == le_bits(orig, vec@.len()),
            num as nat == orig / pow2(vec@.len()),
            bit_length(orig) == vec@.len() + bit_length(num as nat),
        decreases num,
    {
        proof {
            lemma_div_pow2_step(orig, vec@.len());
        }
        vec.push(num % 2 != 0);
        num /= 2;
        assert(vec@ =~= le_bits(orig, vec@.len()));
    }
    proof {
        lemma_bit_length_bound(orig);
    }
    while vec.len() < num_bits
        invariant
            vec@ == le_bits(orig, vec@.len()),
            vec@.len() >= bit_length(orig),
            vec@.len() == bit_length(orig) || vec@.len() <= num_bits,
            orig < pow2(bit_length(orig)),
        decreases num_bits - vec@.len(),
    {
        proof {
            if vec@.len() > bit_length(orig) {
                lemma_pow2_strictly_increases(bit_length(orig), vec@.len());
            }
            lemma_basic_div(orig as int, pow2(vec@.len()) as int);
        }
        vec.push(false);
        assert(vec@ =~= le_bits(orig, vec@.len()));
    }
    vec
}

/// The fixed-code bits of a length symbol (257..=287).
fn reverse_huffman_lengths(length: usize) -> (bits: Vec<bool>)
    requires
        256 < length <= 343,
    ensures
        bits@ == length_code_bits(length as int),
{
    if length == 280 {
        let v = vec![true, true, false, false, false, false, false, false];
        proof {
            lemma2_to64();
            lemma_be_bits_192();
            assert(v@ =~= be_bits(192, 8));
        }
        v
    } else if length < 280 {
        let new_num = (length - 256) as u8;
        let arr = [new_num];
        proof {
            lemma_byte_msb_bits(new_num, 7);
            assert(arr@ == seq![new_num]);
        }
        get_n_bits_reverse(&arr, 1, 7)
    } else {
        let new_num = (length - 280) as u8 + 0b11000000;
        let arr = [new_num];
        proof {
            lemma_byte_msb_bits(new_num, 8);
            assert(arr@ == seq![new_num]);
        }
        get_n_bits_reverse(&arr, 0, 8)
    }
}

/// A value below `2^n` needs at most `n` bits.
pub proof fn lemma_bit_length_le(v: nat, n: nat)
    requires
        v < pow2(n),
    ensures
        bit_length(v) <= n,
    decreases n,
{
    lemma2_to64();
    if v > 0 {
        if n == 0 {
        } else {
            lemma_pow2_unfold(n);
            lemma_bit_length_le(v / 2, (n - 1) as nat);
        }
    }
}

/// The number of extra bits a length in 11..=257 is written with.
pub open spec fn length_extra_count(len: int) -> int {
    if len < 19 {
        1
    } else if len < 35 {
        2
    } else if len < 67 {
        3
    } else if len < 131 {
        4
    } else {
        5
    }
}

/// The length symbol (257..=285) of a match length in 3..=258.
pub open spec fn length_symbol(len: int) -> int {
    if len < 11 {
        len + 254
    } else if len == 258 {
        285
    } else {
        let nb = length_extra_count(len);
        265 + 4 * (nb - 1) + (len - LENGTH_STARTING[nb]) / pow2(nb as nat) as int
    }
}

/// The bits written for a match length in 3..=258: its symbol's code, then its extra bits,
/// least significant first.
pub open spec fn length_bits(len: int) -> Seq<bool> {
    if len < 11 || len == 258 {
        length_code_bits(length_symbol(len))
    } else {
        let nb = length_extra_count(len);
        length_code_bits(length_symbol(len)) + le_bits(
            ((len - LENGTH_STARTING[nb]) % pow2(nb as nat) as int) as nat,
            nb as nat,
        )
    }
}

/// The number of extra bits a distance is written with (0 for 1..=4, 13 from 16385 on).
pub open spec fn distance_extra_count(d: int) -> int {
    if d < 5 {
        0
    } else if d < 9 {
        1
    } else if d < 17 {
        2
    } else if d < 33 {
        3
    } else if d < 65 {
        4
    } else if d < 129 {
        5
    } else if d < 257 {
        6
    } else if d < 513 {
        7
    } else if d < 1025 {
        8
    } else if d < 2049 {
        9
    } else if d < 4097 {
        10
    } else if d < 8193 {
        11
    } else if d < 16385 {
        12
    } else {
        13
    }
}

/// The distance symbol of a distance of at least 1 (0..=29 up to 32768).
pub open spec fn distance_symbol(d: int) -> int {
    let nb = distance_extra_count(d);
    if nb == 0 {
        d - 1
    } else {
        (d - DISTANCE_CODES[nb]) / pow2(nb as nat) as int + 2 * (nb + 1)
    }
}

/// The extra-bit value of a distance of at least 1.
pub open spec fn distance_extra_value(d: int) -> int {
    let nb = distance_extra_count(d);
    if nb == 0 {
        0
    } else {
        (d - DISTANCE_CODES[nb]) % pow2(nb as nat) as int
    }
}

/// The bits written for a distance: its symbol, most significant bit first (in five bits
/// while it fits), then its extra bits, least significant first.
pub open spec fn distance_bits(d: int) -> Seq<bool> {
    let sym = distance_symbol(d) as nat;
    be_bits(sym, max(5, bit_length(sym) as int) as nat) + le_bits(
        distance_extra_value(d) as nat,
        distance_extra_count(d) as nat,
    )
}

/// A copy of `v` in reverse order.
fn reversed(v: &Vec<bool>) -> (r: Vec<bool>)
    ensures
        r@ == v@.reverse(),
{
    let n = v.len();
    let mut r: Vec<bool> = Vec::new();
    let mut i: usize = 0;
    while i < n
        invariant
            i <= n,
            n == v@.len(),
            r@ =~= v@.reverse().subrange(0, i as int),
        decreases n - i,
    {
        r.push(v[n - 1 - i]);
        i += 1;
    }
    assert(v@.reverse().subrange(0, n as int) =~= v@.reverse());
    r
}

/// The bits that encode a match length in 3..=258 in a fixed-Huffman block.
#[verifier::spinoff_prover]
pub fn convert_length(length: usize) -> (bits: Vec<bool>)
    requires
        3 <= length <= 258,
    ensures
        bits@ == length_bits(length as int),
{
    let mut num_bits: usize = 0;
    if length == 258 {
        return reverse_huffman_lengths(285);
    }
    if length < 11 {
        return reverse_huffman_lengths(257 + length - 3);
    }
    let mut idx: usize = 0;
    loop
        invariant_except_break
            idx <= 6,
            11 <= length < 258,
            forall|j: int| 0 <= j < idx ==> LENGTH_STARTING[j] <= length,
        ensures
            1 <= num_bits <= 5,
            num_bits == length_extra_count(length as int),
        decreases 7 - idx,
    {
        assert(LENGTH_STARTING[0] == 3 && LENGTH_STARTING[1] == 11 && LENGTH_STARTING[2] == 19);
        assert(LENGTH_STARTING[3] == 35 && LENGTH_STARTING[4] == 67 && LENGTH_STARTING[5] == 131);
        assert(LENGTH_STARTING[6] == 258);
        if length < LENGTH_STARTING[idx] as usize {
            num_bits = idx - 1;
            break;
        }
        idx += 1;
    }
    proof {
        lemma2_to64();
        lemma_pow2_strictly_increases(num_bits as nat, 6);
        vstd::bits::lemma_usize_shl_is_mul(1usize, num_bits);
        assert(LENGTH_STARTING[1] == 11 && LENGTH_STARTING[2] == 19 && LENGTH_STARTING[3] == 35);
        assert(LENGTH_STARTING[4] == 67 && LENGTH_STARTING[5] == 131);
    }
    let step = 1usize << num_bits;
    let offset = length - LENGTH_STARTING[num_bits] as usize;
    let num_steps = offset / step;
    proof {
        lemma_fundamental_div_mod(offset as int, step as int);
        assert(num_steps * step <= offset) by (nonlinear_arith)
            requires
                num_steps == offset / step,
                step > 0,
        ;
        assert(offset == num_steps * step + offset % step) by (nonlinear_arith)
            requires
                offset == step * (offset / step) + offset % step,
                num_steps == offset / step,
        ;
    }
    let num = num_steps + 265 + 4 * (num_bits - 1);
    let remaining = length - (num_steps * step + LENGTH_STARTING[num_bits] as usize);
    proof {
        assert(remaining == offset % step);
        lemma_bit_length_le(remaining as nat, num_bits as nat);
        if num_bits == 1 {
        } else if num_bits == 2 {
        } else if num_bits == 3 {
        } else if num_bits == 4 {
        } else {
        }
        assert(num <= 284);
    }
    let mut remaining_bool = number_to_bool_vec(remaining, num_bits);
    let mut ans = reverse_huffman_lengths(num);
    ans.append(&mut remaining_bool);
    ans
}

/// The bits that encode a distance of at least 1 in a fixed-Huffman block.
#[verifier::spinoff_prover]
pub fn convert_dist(distance: usize) -> (bits: Vec<bool>)
    requires
        distance >= 1,
    ensures
        bits@ == distance_bits(distance as int),
{
    let mut num_bits: usize = 0;
    proof {
        assert(DISTANCE_CODES[0] == 0 && DISTANCE_CODES[1] == 5 && DISTANCE_CODES[2] == 9);
        assert(DISTANCE_CODES[3] == 17 && DISTANCE_CODES[4] == 33 && DISTANCE_CODES[5] == 65);
        assert(DISTANCE_CODES[6] == 129 && DISTANCE_CODES[7] == 257 && DISTANCE_CODES[8] == 513);
        assert(DISTANCE_CODES[9] == 1025 && DISTANCE_CODES[10] == 2049 && DISTANCE_CODES[11] == 4097);
        assert(DISTANCE_CODES[12] == 8193 && DISTANCE_CODES[13] == 16385);
    }
    let mut idx: usize = 0;
    while idx < 14
        invariant_except_break
            idx <= 14,
            distance >= 1,
            forall|j: int| 0 <= j < idx ==> DISTANCE_CODES[j] <= distance,
            num_bits == 0,
        ensures
            distance >= 16385 || num_bits == distance_extra_count(distance as int),
        decreases 14 - idx,
    {
        if distance < DISTANCE_CODES[idx] as usize {
            num_bits = idx - 1;
            break;
        }
        idx += 1;
    }
    if distance >= 16385 {
        num_bits = 13;
    }
    assert(num_bits == distance_extra_count(distance as int));
    if num_bits != 0 {
        proof {
            lemma2_to64();
            if num_bits < 13 {
                lemma_pow2_strictly_increases(num_bits as nat, 13);
            }
            vstd::bits::lemma_usize_shl_is_mul(1usize, num_bits);
        }
        let step = 1usize << num_bits;
        let offset = distance - DISTANCE_CODES[num_bits] as usize;
        let num_steps = offset / step;
        proof {
            lemma_fundamental_div_mod(offset as int, step as int);
            assert(num_steps * step <= offset) by (nonlinear_arith)
                requires
                    num_steps == offset / step,
                    step > 0,
            ;
            assert(offset == num_steps * step + offset % step) by (nonlinear_arith)
                requires
                    offset == step * (offset / step) + offset % step,
                    num_steps == offset / step,
            ;
        }
        let num = num_steps + 2 * (num_bits + 1);
        let remaining = distance - (num_steps * step + DISTANCE_CODES[num_bits] as usize);
        proof {
            assert(remaining == offset % step);
            lemma_bit_length_le(remaining as nat, num_bits as nat);
        }
        let mut remaining_bool = number_to_bool_vec(remaining, num_bits);
        let bits = number_to_bool_vec(num, 5);
        let mut ans = reversed(&bits);
        proof {
            lemma_le_bits_reverse(num as nat, max(5, bit_length(num as nat) as int) as nat);
        }
        ans.append(&mut remaining_bool);
        ans
    } else {
        let bits = number_to_bool_vec(distance - 1, 5);
        let ans = reversed(&bits);
        proof {
            lemma_le_bits_reverse((distance - 1) as nat, max(5, bit_length((distance - 1) as nat) as int) as nat);
            assert(le_bits(0, 0) =~= Seq::<bool>::empty());
            assert(ans@ =~= distance_bits(distance as int));
        }
        ans
    }
}

/// Bits 7 to 15 of the two big-endian bytes of a value below 512 are its nine low bits.
proof fn lemma_nine_bits(val: u16)
    requires
        val < 512,
    ensures
        msb_bits(seq![(val >> 8u16) as u8, val as u8], 7, 9) == be_bits(val as nat, 9),
{
    let big = (val >> 8u16) as u8;
    let little = val as u8;
    let buf = seq![big, little];
    assert forall|k: int| 0 <= k < 9 implies #[trigger] msb_bits(buf, 7, 9)[k] == be_bits(val as nat, 9)[k] by {
        let sh = (8 - k) as u16;
        vstd::bits::lemma_u16_shr_is_div(val, sh);
        let y = val >> sh;
        assert((y & 1u16 == 1u16) == (y % 2 == 1)) by (bit_vector);
        if k == 0 {
            assert(((big >> 0u8) & 1u8 == 1u8) == ((val >> 8u16) & 1u16 == 1u16)) by (bit_vector)
                requires
                    big == (val >> 8u16) as u8,
                    val < 512,
            ;
        } else {
            let sb = (8 - k) as u8;
            assert(((little >> sb) & 1u8 == 1u8) == ((val >> sh) & 1u16 == 1u16)) by (bit_vector)
                requires
                    little == val as u8,
                    sb < 8,
                    sh == sb as u16,
            ;
        }
    }
    assert(msb_bits(buf, 7, 9) =~= be_bits(val as nat, 9));
}

/// The nine-bit fixed code of a literal in 144..=255.
fn gen_huff(num: u16) -> (bits: [bool; 9])
    requires
        144 <= num <= 255,
    ensures
        bits@ == be_bits((num + 256) as nat, 9),
{
    let val: u16 = num - 144 + 400;
    let big_bytes = (val >> 8) as u8;
    let little_bytes = val as u8;
    let arr = [big_bytes, little_bytes];
    proof {
        lemma_nine_bits(val);
        assert(arr@ == seq![big_bytes, little_bytes]);
    }
    get_9_bits_reverse(&arr, 16 - 9)
}

/// The nine-bit fixed codes of the literals 144..=255; the 31 entries after them stay unset.
pub fn gen_table() -> (table: [[bool; 9]; 143])
    ensures
        forall|k: int| 0 <= k < 112 ==> (#[trigger] table@[k])@ == be_bits((k + 400) as nat, 9),
        forall|k: int| 112 <= k < 143 ==> (#[trigger] table@[k])@ == seq![false; 9],
{
    let mut ans: [[bool; 9]; 143] = [[false; 9]; 143];
    let mut start_idx: usize = 144;
    while start_idx <= 255
        invariant
            144 <= start_idx <= 256,
            ans@.len() == 143,
            forall|k: int| 0 <= k < start_idx - 144 ==> (#[trigger] ans@[k])@ == be_bits((k + 400) as nat, 9),
            forall|k: int| start_idx - 144 <= k < 143 ==> (#[trigger] ans@[k])@ == seq![false; 9],
        decreases 256 - start_idx,
    {
        ans[start_idx - 144] = gen_huff(start_idx as u16);
        start_idx += 1;
    }
    ans
}

/// A nine-element array as a vector.
fn nine_to_vec(a: [bool; 9]) -> (v: Vec<bool>)
    ensures
        v@ == a@,
{
    let mut v: Vec<bool> = Vec::new();
    let mut i: usize = 0;
    while i < 9
        invariant
            i <= 9,
            a@.len() == 9,
            v@ =~= a@.subrange(0, i as int),
        decreases 9 - i,
    {
        v.push(a[i]);
        i += 1;
    }
    assert(a@.subrange(0, 9) =~= a@);
    v
}

/// The code of literal `num` in the fixed literal/length code (8 or 9 bits).
pub fn reverse_huffman(num: u8) -> (bits: Vec<bool>)
    ensures
        bits@ == fixed_code_bits(num as int),
{
    if num == 144 {
        let v = vec![true, true, false, false, true, false, false, false, false];
        proof {
            lemma_nine_bits(400u16);
            assert(msb_bits(seq![1u8, 144u8], 7, 9) =~= v@) by {
                let buf = seq![1u8, 144u8];
                assert(msb_bits(buf, 7, 9)[0] == ((1u8 >> 0u8) & 1u8 == 1u8));
                assert(msb_bits(buf, 7, 9)[1] == ((144u8 >> 7u8) & 1u8 == 1u8));
                assert(msb_bits(buf, 7, 9)[2] == ((144u8 >> 6u8) & 1u8 == 1u8));
                assert(msb_bits(buf, 7, 9)[3] == ((144u8 >> 5u8) & 1u8 == 1u8));
                assert(msb_bits(buf, 7, 9)[4] == ((144u8 >> 4u8) & 1u8 == 1u8));
                assert(msb_bits(buf, 7, 9)[5] == ((144u8 >> 3u8) & 1u8 == 1u8));
                assert(msb_bits(buf, 7, 9)[6] == ((144u8 >> 2u8) & 1u8 == 1u8));
                assert(msb_bits(buf, 7, 9)[7] == ((144u8 >> 1u8) & 1u8 == 1u8));
                assert(msb_bits(buf, 7, 9)[8] == ((144u8 >> 0u8) & 1u8 == 1u8));
                assert((1u8 >> 0u8) & 1u8 == 1u8) by (bit_vector);
                assert((144u8 >> 7u8) & 1u8 == 1u8) by (bit_vector);
                assert((144u8 >> 6u8) & 1u8 == 0u8) by (bit_vector);
                assert((144u8 >> 5u8) & 1u8 == 0u8) by (bit_vector);
                assert((144u8 >> 4u8) & 1u8 == 1u8) by (bit_vector);
                assert((144u8 >> 3u8) & 1u8 == 0u8) by (bit_vector);
                assert((144u8 >> 2u8) & 1u8 == 0u8) by (bit_vector);
                assert((144u8 >> 1u8) & 1u8 == 0u8) by (bit_vector);
                assert((144u8 >> 0u8) & 1u8 == 0u8) by (bit_vector);
            }
            assert((400u16 >> 8u16) as u8 == 1u8) by (bit_vector);
            assert(400u16 as u8 == 144u8) by (bit_vector);
        }
        v
    } else if num < 144 {
        let new_num = num + 0b00110000;
        let arr = [new_num];
        proof {
            lemma_byte_msb_bits(new_num, 8);
            assert(arr@ == seq![new_num]);
        }
        get_n_bits_reverse(&arr, 0, 8)
    } else {
        nine_to_vec(gen_huff(num as u16))
    }
}

} // verus!
