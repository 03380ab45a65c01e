//! The fixed-Huffman encoder and decoder agree: what `reverse_huffman`, `convert_length`
//! and `convert_dist` write, `get_num_buffer` reads back.
use vstd::prelude::*;
use vstd::arithmetic::power2::{pow2, lemma2_to64, lemma_pow2_pos, lemma_pow2_adds, lemma_pow2_strictly_increases};
use vstd::arithmetic::div_mod::{lemma_div_denominator, lemma_fundamental_div_mod};
use vstd::math::max;
use crate::AsciiNum;
use crate::bits::{be_value, le_value};
use crate::encode::{
    be_bits, le_bits, bit_length, fixed_code_bits, length_code_bits, length_bits, length_symbol,
    length_extra_count, distance_bits, distance_symbol, distance_extra_count, distance_extra_value,
    lemma_be_bits_value, lemma_le_bits_value, lemma_bit_length_le,
};
use crate::fixed::{
    fixed_literal_code, parse_fixed_token, length_extra_bits, lower_bound_spec, fixed_distance,
    distance_extra_bits,
};
use crate::{DISTANCE_CODES, LENGTH_STARTING};

verus! {

/// The first `m` of the `n` big-endian bits of `c` are the bits of `c / 2^(n-m)`.
pub proof fn lemma_be_bits_prefix(c: nat, n: nat, m: nat)
    requires
        m <= n,
    ensures
        be_bits(c, n).subrange(0, m as int) == be_bits(c / pow2((n - m) as nat), m),
{
    let d = (n - m) as nat;
    lemma_pow2_pos(d);
    assert forall|k: int| 0 <= k < m implies #[trigger] be_bits(c, n).subrange(0, m as int)[k] == be_bits(
        c / pow2(d),
        m,
    )[k] by {
        let j = (m - 1 - k) as nat;
        lemma_pow2_pos(j);
        lemma_div_denominator(c as int, pow2(d) as int, pow2(j) as int);
        lemma_pow2_adds(d, j);
        assert((n - 1 - k) as nat == d + j);
    }
    assert(be_bits(c, n).subrange(0, m as int) =~= be_bits(c / pow2(d), m));
}

/// The big-endian value of the first `m` bits of a stream that starts with `be_bits(c, n)`.
pub proof fn lemma_prefix_value(c: nat, n: nat, m: nat, rest: Seq<bool>)
    requires
        m <= n,
        c < pow2(n),
    ensures
        be_value((be_bits(c, n) + rest).subrange(0, m as int)) == c / pow2((n - m) as nat),
{
    let s = be_bits(c, n) + rest;
    assert(s.subrange(0, m as int) =~= be_bits(c, n).subrange(0, m as int));
    lemma_be_bits_prefix(c, n, m);
    let d = (n - m) as nat;
    lemma_pow2_pos(d);
    lemma_pow2_adds(d, m);
    assert(c / pow2(d) < pow2(m)) by (nonlinear_arith)
        requires
            c < pow2(n),
            pow2(n) == pow2(d) * pow2(m),
            pow2(d) > 0,
    ;
    lemma_be_bits_value(c / pow2(d), m);
}

/// Each literal/length symbol's fixed code decodes back to the symbol, whatever follows it.
pub proof fn lemma_fixed_code_decodes(sym: int, rest: Seq<bool>)
    requires
        0 <= sym <= 287,
    ensures
        fixed_literal_code(fixed_code_bits(sym) + rest, 0) == Some((sym, fixed_code_bits(sym).len() as int)),
{
    lemma2_to64();
    let s = fixed_code_bits(sym) + rest;
    if sym < 144 {
        let c = (sym + 48) as nat;
        lemma_prefix_value(c, 8, 7, rest);
        lemma_prefix_value(c, 8, 8, rest);
        assert(be_value(s.subrange(0, 7)) == c / 2);
        assert(c / 1 == c);
    } else if sym < 256 {
        let c = (sym + 256) as nat;
        lemma_prefix_value(c, 9, 7, rest);
        lemma_prefix_value(c, 9, 8, rest);
        lemma_prefix_value(c, 9, 9, rest);
        assert(be_value(s.subrange(0, 7)) == c / 4);
        assert(be_value(s.subrange(0, 8)) == c / 2);
        assert(c / 1 == c);
    } else if sym < 280 {
        let c = (sym - 256) as nat;
        lemma_prefix_value(c, 7, 7, rest);
        assert(c / 1 == c);
    } else {
        let c = (sym - 88) as nat;
        lemma_prefix_value(c, 8, 7, rest);
        lemma_prefix_value(c, 8, 8, rest);
        assert(be_value(s.subrange(0, 7)) == c / 2);
        assert(c / 1 == c);
    }
}

/// Law: the code `reverse_huffman` writes for a byte reads back as that byte.
pub proof fn lemma_literal_roundtrip(b: u8, rest: Seq<bool>)
    ensures
        parse_fixed_token(fixed_code_bits(b as int) + rest, 0) == Some(
            (AsciiNum::Ascii(b as u16), fixed_code_bits(b as int).len() as int),
        ),
{
    lemma_fixed_code_decodes(b as int, rest);
}

/// Law: seven zero bits read back as the end-of-block symbol 256.
pub proof fn lemma_end_of_block_roundtrip(rest: Seq<bool>)
    ensures
        parse_fixed_token(seq![false, false, false, false, false, false, false] + rest, 0) == Some(
            (AsciiNum::Ascii(256), 7int),
        ),
{
    lemma2_to64();
    let z = seq![false, false, false, false, false, false, false];
    assert(z =~= be_bits(0, 7));
    lemma_fixed_code_decodes(256, rest);
}

/// The extra-bit value of a match length in 11..=257.
pub open spec fn length_extra_value(len: int) -> int {
    let nb = length_extra_count(len);
    (len - LENGTH_STARTING[nb]) % pow2(nb as nat) as int
}

/// The arithmetic behind the length code: its symbol, extra-bit count and value give back the length.
pub proof fn lemma_length_code_arith(len: int)
    requires
        11 <= len <= 257,
    ensures
        265 <= length_symbol(len) <= 284,
        length_extra_bits(length_symbol(len)) == length_extra_count(len),
        0 <= length_extra_value(len) < pow2(length_extra_count(len) as nat),
        lower_bound_spec(length_extra_count(len), length_symbol(len)) + length_extra_value(len) == len,
{
    lemma2_to64();
    let nb = length_extra_count(len);
    assert(LENGTH_STARTING[1] == 11 && LENGTH_STARTING[2] == 19 && LENGTH_STARTING[3] == 35);
    assert(LENGTH_STARTING[4] == 67 && LENGTH_STARTING[5] == 131);
    if nb == 1 {
        assert(pow2(1) == 2);
        assert(length_symbol(len) == 265 + 4 * 0 + (len - 11) / 2);
        assert(length_extra_value(len) == (len - 11) % 2);
        let sym = length_symbol(len);
        assert(lower_bound_spec(1, sym) == ((sym - 265) % 4) * 2 + 11);
        assert((sym - 265) % 4 == (len - 11) / 2);
        assert(((len - 11) / 2) * 2 + (len - 11) % 2 == len - 11);
    } else if nb == 2 {
        assert(pow2(2) == 4);
        assert(length_symbol(len) == 265 + 4 * 1 + (len - 19) / 4);
        assert(length_extra_value(len) == (len - 19) % 4);
        let sym = length_symbol(len);
        assert(lower_bound_spec(2, sym) == ((sym - 265) % 4) * 4 + 19);
        assert((sym - 265) % 4 == (len - 19) / 4);
        assert(((len - 19) / 4) * 4 + (len - 19) % 4 == len - 19);
    } else if nb == 3 {
        assert(pow2(3) == 8);
        assert(length_symbol(len) == 265 + 4 * 2 + (len - 35) / 8);
        assert(length_extra_value(len) == (len - 35) % 8);
        let sym = length_symbol(len);
        assert(lower_bound_spec(3, sym) == ((sym - 265) % 4) * 8 + 35);
        assert((sym - 265) % 4 == (len - 35) / 8);
        assert(((len - 35) / 8) * 8 + (len - 35) % 8 == len - 35);
    } else if nb == 4 {
        assert(pow2(4) == 16);
        assert(length_symbol(len) == 265 + 4 * 3 + (len - 67) / 16);
        assert(length_extra_value(len) == (len - 67) % 16);
        let sym = length_symbol(len);
        assert(lower_bound_spec(4, sym) == ((sym - 265) % 4) * 16 + 67);
        assert((sym - 265) % 4 == (len - 67) / 16);
        assert(((len - 67) / 16) * 16 + (len - 67) % 16 == len - 67);
    } else {
        assert(pow2(5) == 32);
        assert(length_symbol(len) == 265 + 4 * 4 + (len - 131) / 32);
        assert(length_extra_value(len) == (len - 131) % 32);
        let sym = length_symbol(len);
        assert(lower_bound_spec(5, sym) == ((sym - 265) % 4) * 32 + 131);
        assert((sym - 265) % 4 == (len - 131) / 32);
        assert(((len - 131) / 32) * 32 + (len - 131) % 32 == len - 131);
    }
}

/// The arithmetic behind the distance code: for distances up to 32768 the symbol fits in
/// 0..=29, and the decoder's base, extra-bit count and value give back the distance.
pub proof fn lemma_distance_code_arith(d: int)
    requires
        1 <= d <= 32768,
    ensures
        0 <= distance_symbol(d) <= 29,
        distance_extra_bits(distance_symbol(d)) == distance_extra_count(d),
        0 <= distance_extra_value(d) < pow2(distance_extra_count(d) as nat),
        ({
            let dn = distance_symbol(d);
            let k = distance_extra_count(d);
            d == if dn < 4 {
                dn + 1
            } else {
                (dn % 2) * pow2(k as nat) + DISTANCE_CODES[k] + distance_extra_value(d)
            }
        }),
{
    lemma2_to64();
    let nb = distance_extra_count(d);
    assert(DISTANCE_CODES[0] == 0 && DISTANCE_CODES[1] == 5 && DISTANCE_CODES[2] == 9);
    assert(DISTANCE_CODES[3] == 17 && DISTANCE_CODES[4] == 33 && DISTANCE_CODES[5] == 65);
    assert(DISTANCE_CODES[6] == 129 && DISTANCE_CODES[7] == 257 && DISTANCE_CODES[8] == 513);
    assert(DISTANCE_CODES[9] == 1025 && DISTANCE_CODES[10] == 2049 && DISTANCE_CODES[11] == 4097);
    assert(DISTANCE_CODES[12] == 8193 && DISTANCE_CODES[13] == 16385);
    if nb == 0 {
        assert(distance_symbol(d) == d - 1);
        assert(distance_extra_value(d) == 0);
    } else if nb == 1 {
        assert(pow2(1) == 2);
        assert(distance_symbol(d) == (d - 5) / 2 + 4);
        assert(distance_extra_value(d) == (d - 5) % 2);
        let dn = distance_symbol(d);
        assert(dn % 2 == (d - 5) / 2);
        assert(((d - 5) / 2) * 2 + (d - 5) % 2 == d - 5);
    } else if nb == 2 {
        assert(pow2(2) == 4);
        assert(distance_symbol(d) == (d - 9) / 4 + 6);
        assert(distance_extra_value(d) == (d - 9) % 4);
        let dn = distance_symbol(d);
        assert(dn % 2 == (d - 9) / 4);
        assert(((d - 9) / 4) * 4 + (d - 9) % 4 == d - 9);
    } else if nb == 3 {
        assert(pow2(3) == 8);
        assert(distance_symbol(d) == (d - 17) / 8 + 8);
        assert(distance_extra_value(d) == (d - 17) % 8);
        let dn = distance_symbol(d);
        assert(dn % 2 == (d - 17) / 8);
        assert(((d - 17) / 8) * 8 + (d - 17) % 8 == d - 17);
    } else if nb == 4 {
        assert(pow2(4) == 16);
        assert(distance_symbol(d) == (d - 33) / 16 + 10);
        assert(distance_extra_value(d) == (d - 33) % 16);
        let dn = distance_symbol(d);
        assert(dn % 2 == (d - 33) / 16);
        assert(((d - 33) / 16) * 16 + (d - 33) % 16 == d - 33);
    } else if nb == 5 {
        assert(pow2(5) == 32);
        assert(distance_symbol(d) == (d - 65) / 32 + 12);
        assert(distance_extra_value(d) == (d - 65) % 32);
        let dn = distance_symbol(d);
        assert(dn % 2 == (d - 65) / 32);
        assert(((d - 65) / 32) * 32 + (d - 65) % 32 == d - 65);
    } else if nb == 6 {
        assert(pow2(6) == 64);
        assert(distance_symbol(d) == (d - 129) / 64 + 14);
        assert(distance_extra_value(d) == (d - 129) % 64);
        let dn = distance_symbol(d);
        assert(dn % 2 == (d - 129) / 64);
        assert(((d - 129) / 64) * 64 + (d - 129) % 64 == d - 129);
    } else if nb == 7 {
        assert(pow2(7) == 128);
        assert(distance_symbol(d) == (d - 257) / 128 + 16);
        assert(distance_extra_value(d) == (d - 257) % 128);
        let dn = distance_symbol(d);
        assert(dn % 2 == (d - 257) / 128);
        assert(((d - 257) / 128) * 128 + (d - 257) % 128 == d - 257);
    } else if nb == 8 {
        assert(pow2(8) == 256);
        assert(distance_symbol(d) == (d - 513) / 256 + 18);
        assert(distance_extra_value(d) == (d - 513) % 256);
        let dn = distance_symbol(d);
        assert(dn % 2 == (d - 513) / 256);
        assert(((d - 513) / 256) * 256 + (d - 513) % 256 == d - 513);
    } else if nb == 9 {
        assert(pow2(9) == 512);
        assert(distance_symbol(d) == (d - 1025) / 512 + 20);
        assert(distance_extra_value(d) == (d - 1025) % 512);
        let dn = distance_symbol(d);
        assert(dn % 2 == (d - 1025) / 512);
        assert(((d - 1025) / 512) * 512 + (d - 1025) % 512 == d - 1025);
    } else if nb == 10 {
        assert(pow2(10) == 1024);
        assert(distance_symbol(d) == (d - 2049) / 1024 + 22);
        assert(distance_extra_value(d) == (d - 2049) % 1024);
        let dn = distance_symbol(d);
        assert(dn % 2 == (d - 2049) / 1024);
        assert(((d - 2049) / 1024) * 1024 + (d - 2049) % 1024 == d - 2049);
    } else if nb == 11 {
        assert(pow2(11) == 2048);
        assert(distance_symbol(d) == (d - 4097) / 2048 + 24);
        assert(distance_extra_value(d) == (d - 4097) % 2048);
        let dn = distance_symbol(d);
        assert(dn % 2 == (d - 4097) / 2048);
        assert(((d - 4097) / 2048) * 2048 + (d - 4097) % 2048 == d - 4097);
    } else if nb == 12 {
        assert(pow2(12) == 4096);
        assert(distance_symbol(d) == (d - 8193) / 4096 + 26);
        assert(distance_extra_value(d) == (d - 8193) % 4096);
        let dn = distance_symbol(d);
        assert(dn % 2 == (d - 8193) / 4096);
        assert(((d - 8193) / 4096) * 4096 + (d - 8193) % 4096 == d - 8193);
    } else {
        assert(pow2(13) == 8192);
        assert(distance_symbol(d) == (d - 16385) / 8192 + 28);
        assert(distance_extra_value(d) == (d - 16385) % 8192);
        let dn = distance_symbol(d);
        assert(dn % 2 == (d - 16385) / 8192);
        assert(((d - 16385) / 8192) * 8192 + (d - 16385) % 8192 == d - 16385);
    }
}

/// For distances up to 32768 the symbol is written in exactly five bits.
pub proof fn lemma_distance_bits_split(d: int)
    requires
        1 <= d <= 32768,
    ensures
        distance_bits(d) == be_bits(distance_symbol(d) as nat, 5) + le_bits(
            distance_extra_value(d) as nat,
            distance_extra_count(d) as nat,
        ),
{
    lemma_distance_code_arith(d);
    lemma2_to64();
    lemma_bit_length_le(distance_symbol(d) as nat, 5);
}

/// Law: the bits `convert_length` and `convert_dist` write for a match read back as that
/// (length, distance) pair, whatever follows them.
pub proof fn lemma_length_distance_roundtrip(len: int, d: int, rest: Seq<bool>)
    requires
        3 <= len <= 258,
        1 <= d <= 32768,
    ensures
        parse_fixed_token(length_bits(len) + distance_bits(d) + rest, 0) == Some(
            (
                AsciiNum::LenDist((len as u16, d as u16)),
                (length_bits(len).len() + distance_bits(d).len()) as int,
            ),
        ),
{
    lemma2_to64();
    let sym = length_symbol(len);
    if 11 <= len <= 257 {
        lemma_length_code_arith(len);
    }
    let code = length_code_bits(sym);
    let nb: int = if len < 11 || len == 258 { 0 } else { length_extra_count(len) };
    let ev: int = if len < 11 || len == 258 { 0 } else { length_extra_value(len) };
    let extra = le_bits(ev as nat, nb as nat);
    assert(length_bits(len) =~= code + extra);
    let dsym = distance_symbol(d);
    let dnb = distance_extra_count(d);
    let dev = distance_extra_value(d);
    lemma_distance_code_arith(d);
    lemma_distance_bits_split(d);
    let dcode = be_bits(dsym as nat, 5);
    let dextra = le_bits(dev as nat, dnb as nat);
    let s = length_bits(len) + distance_bits(d) + rest;
    let tail = extra + dcode + dextra + rest;
    assert(s =~= code + tail);
    assert(fixed_code_bits(sym) == code);
    lemma_fixed_code_decodes(sym, tail);
    let clen = code.len() as int;
    // The length's extra bits.
    if 11 <= len <= 257 {
        lemma_length_code_arith(len);
        lemma_le_bits_value(ev as nat, nb as nat);
    } else {
        assert(le_value(Seq::<bool>::empty()) == 0);
    }
    assert(length_extra_bits(sym) == nb);
    assert(s.subrange(clen, clen + nb) =~= extra);
    let q = clen + nb;
    // The distance symbol and its extra bits.
    assert(s.subrange(q, q + 5) =~= dcode);
    lemma_be_bits_value(dsym as nat, 5);
    let r = q + 5;
    assert(s.subrange(r, r + dnb) =~= dextra);
    lemma_le_bits_value(dev as nat, dnb as nat);
    assert(fixed_distance(s, dsym, r) == d);
    assert(distance_extra_bits(dsym) == dnb);
    assert(s.len() == clen + nb + 5 + dnb + rest.len());
    if len == 258 {
        assert(sym == 285);
    } else if len < 11 {
        assert(lower_bound_spec(0, sym) == len);
    }
}

} // verus!
