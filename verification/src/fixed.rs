//! Decoding blocks compressed with the fixed Huffman code.
use vstd::prelude::*;
use vstd::arithmetic::power2::{pow2, lemma2_to64, lemma_pow2_strictly_increases};
use crate::bits::{be_value, le_value, lemma_be_value_bound, lemma_be_value_extend, lemma_le_value_bound, msb_stream, lemma_msb_bits_window, get_n_bits_reverse, get_num, get_num_reverse};
use crate::{AsciiNum, BITS_TO_READ, CHARACTER_BOUNDS, DISTANCE_BITS, DISTANCE_CODES, LENGTH_STARTING};

verus! {

/// The number of extra bits after the length code `num` (0 outside 265..=284).
pub open spec fn length_extra_bits(num: int) -> int {
    if 265 <= num <= 284 {
        (num - 261) / 4
    } else {
        0
    }
}

/// The smallest length of length code `num` when it has `b` extra bits.
pub open spec fn lower_bound_spec(b: int, num: int) -> int {
    if num < 265 {
        num - 254
    } else {
        ((num - 265) % 4) * pow2(b as nat) + LENGTH_STARTING[b]
    }
}

/// The symbol of the fixed literal/length code at bit `idx`, with the code's length.
pub open spec fn fixed_literal_code(s: Seq<bool>, idx: int) -> Option<(int, int)> {
    if idx < 0 || idx + 7 > s.len() {
        None
    } else {
        let v7 = be_value(s.subrange(idx, idx + 7)) as int;
        if v7 <= 23 {
            Some((v7 + 256, 7))
        } else if idx + 8 > s.len() {
            None
        } else {
            let v8 = be_value(s.subrange(idx, idx + 8)) as int;
            if 48 <= v8 <= 191 {
                Some((v8 - 48, 8))
            } else if 192 <= v8 <= 199 {
                Some((v8 - 192 + 280, 8))
            } else if idx + 9 > s.len() {
                None
            } else {
                let v9 = be_value(s.subrange(idx, idx + 9)) as int;
                if 400 <= v9 <= 511 {
                    Some((v9 - 400 + 144, 9))
                } else {
                    None
                }
            }
        }
    }
}

/// The distance coded by the five-bit distance code `dn` and the bits that follow it at `r`.
pub open spec fn fixed_distance(s: Seq<bool>, dn: int, r: int) -> int {
    if dn < 4 {
        dn + 1
    } else {
        let k = (dn - 4) / 2 + 1;
        (dn % 2) * pow2(k as nat) + DISTANCE_CODES[k] + le_value(s.subrange(r, r + k))
    }
}

/// The number of extra bits after the five-bit distance code `dn`.
pub open spec fn distance_extra_bits(dn: int) -> int {
    if dn < 4 {
        0
    } else {
        (dn - 4) / 2 + 1
    }
}

/// One symbol of a fixed-Huffman block at bit `idx`, with the bit index after it.
/// `None` where the stream ends too early or the distance code is above 29.
pub open spec fn parse_fixed_token(s: Seq<bool>, idx: int) -> Option<(AsciiNum, int)> {
    match fixed_literal_code(s, idx) {
        None => None,
        Some((num, clen)) => {
            let p = idx + clen;
            if num < 257 {
                Some((AsciiNum::Ascii(num as u16), p))
            } else {
                let lb = length_extra_bits(num);
                let length = if num == 285 {
                    258
                } else {
                    lower_bound_spec(lb, num) + le_value(s.subrange(p, p + lb))
                };
                let q = p + lb;
                if q + 5 > s.len() {
                    None
                } else {
                    let dn = be_value(s.subrange(q, q + 5)) as int;
                    let r = q + 5;
                    let k = distance_extra_bits(dn);
                    if dn > 29 || r + k > s.len() {
                        None
                    } else {
                        Some((AsciiNum::LenDist((length as u16, fixed_distance(s, dn, r) as u16)), r + k))
                    }
                }
            }
        }
    }
}

/// Every length that a length code and its extra bits can give lies in 3..=258.
pub proof fn lemma_length_range(num: int, extra: int)
    requires
        257 <= num <= 287,
        num != 285,
        0 <= extra < pow2(length_extra_bits(num) as nat),
    ensures
        3 <= lower_bound_spec(length_extra_bits(num), num) + extra <= 258,
{
    lemma2_to64();
    let lb = length_extra_bits(num);
    if num >= 265 && num <= 284 {
        assert(1 <= lb <= 5);
        assert(LENGTH_STARTING[1] == 11 && LENGTH_STARTING[2] == 19 && LENGTH_STARTING[3] == 35);
        assert(LENGTH_STARTING[4] == 67 && LENGTH_STARTING[5] == 131);
        if lb == 1 {
        } else if lb == 2 {
        } else if lb == 3 {
        } else if lb == 4 {
        } else {
        }
    } else {
        assert(LENGTH_STARTING[0] == 3);
    }
}

/// Every distance that a distance code up to 29 and its extra bits can give lies in 1..=32768.
pub proof fn lemma_distance_range(dn: int, extra: int)
    requires
        0 <= dn <= 29,
        0 <= extra < pow2(distance_extra_bits(dn) as nat),
    ensures
        ({
            let k = distance_extra_bits(dn);
            let d = if dn < 4 { dn + 1 } else { (dn % 2) * pow2(k as nat) + DISTANCE_CODES[k] + extra };
            1 <= d <= 32768
        }),
{
    lemma2_to64();
    let k = distance_extra_bits(dn);
    if dn >= 4 {
        assert(1 <= k <= 13);
        assert(DISTANCE_CODES[1] == 5 && DISTANCE_CODES[2] == 9 && DISTANCE_CODES[3] == 17);
        assert(DISTANCE_CODES[4] == 33 && DISTANCE_CODES[5] == 65 && DISTANCE_CODES[6] == 129);
        assert(DISTANCE_CODES[7] == 257 && DISTANCE_CODES[8] == 513 && DISTANCE_CODES[9] == 1025);
        assert(DISTANCE_CODES[10] == 2049 && DISTANCE_CODES[11] == 4097 && DISTANCE_CODES[12] == 8193);
        assert(DISTANCE_CODES[13] == 16385);
        if k < 13 {
            lemma_pow2_strictly_increases(k as nat, 13);
        }
    }
}

/// What a successful parse of one symbol guarantees.
pub proof fn lemma_parse_fixed_token(s: Seq<bool>, idx: int)
    requires
        parse_fixed_token(s, idx) is Some,
    ensures
        ({
            let (tok, next) = parse_fixed_token(s, idx).unwrap();
            &&& 0 <= idx
            &&& idx + 7 <= next <= s.len()
            &&& (tok matches AsciiNum::Ascii(v) ==> v <= 256)
            &&& (tok matches AsciiNum::LenDist((l, d)) ==> 3 <= l <= 258 && 1 <= d <= 32768)
        }),
{
    lemma_fixed_literal_code(s, idx);
    let (num, clen) = fixed_literal_code(s, idx).unwrap();
    let p = idx + clen;
    if num >= 257 {
        let lb = length_extra_bits(num);
        lemma_le_value_bound(s.subrange(p, p + lb));
        if num != 285 {
            lemma_length_range(num, le_value(s.subrange(p, p + lb)) as int);
        }
        let q = p + lb;
        let dn = be_value(s.subrange(q, q + 5)) as int;
        let r = q + 5;
        let k = distance_extra_bits(dn);
        if dn <= 29 {
            lemma_le_value_bound(s.subrange(r, r + k));
            lemma_distance_range(dn, le_value(s.subrange(r, r + k)) as int);
        }
    }
}

/// The fixed literal/length code always decodes to a symbol in 0..=287 once enough bits remain.
pub proof fn lemma_fixed_literal_code(s: Seq<bool>, idx: int)
    requires
        fixed_literal_code(s, idx) is Some,
    ensures
        ({
            let (num, clen) = fixed_literal_code(s, idx).unwrap();
            &&& 0 <= idx
            &&& 7 <= clen <= 9
            &&& idx + clen <= s.len()
            &&& 0 <= num <= 287
            &&& (clen == 7 ==> 256 <= num <= 279)
        }),
{
}

/// When nine bits are available, the fixed literal/length code never fails.
pub proof fn lemma_fixed_literal_code_total(s: Seq<bool>, idx: int)
    requires
        0 <= idx,
        idx + 9 <= s.len(),
    ensures
        fixed_literal_code(s, idx) is Some,
{
    lemma_be_value_extend(s, idx, idx + 7);
    lemma_be_value_extend(s, idx, idx + 8);
    lemma_be_value_bound(s.subrange(idx, idx + 9));
    lemma2_to64();
}

/// `lz77_copy(s, len, dist)` appends `len` bytes to `s`, each a copy of the byte `dist` before it.
pub open spec fn lz77_copy(s: Seq<u8>, len: nat, dist: nat) -> Seq<u8>
    decreases len,
{
    if len == 0 {
        s
    } else {
        lz77_copy(s.push(s[s.len() - dist]), (len - 1) as nat, dist)
    }
}

/// A back-reference appends `len` bytes, keeps what was there, and each new byte repeats
/// the byte `dist` positions before it.
pub proof fn lemma_lz77_copy(s: Seq<u8>, len: nat, dist: nat)
    ensures
        lz77_copy(s, len, dist).len() == s.len() + len,
        lz77_copy(s, len, dist).subrange(0, s.len() as int) == s,
        1 <= dist <= s.len() ==> forall|k: int|
            s.len() <= k < s.len() + len ==> #[trigger] lz77_copy(s, len, dist)[k] == lz77_copy(
                s,
                len,
                dist,
            )[k - dist],
    decreases len,
{
    if len > 0 {
        let t = s.push(s[s.len() - dist]);
        lemma_lz77_copy(t, (len - 1) as nat, dist);
        let r = lz77_copy(s, len, dist);
        assert(r == lz77_copy(t, (len - 1) as nat, dist));
        assert(r.subrange(0, t.len() as int) == t);
        assert(r.subrange(0, s.len() as int) =~= s) by {
            assert forall|k: int| 0 <= k < s.len() implies r[k] == s[k] by {
                assert(r.subrange(0, t.len() as int)[k] == t[k]);
            }
        }
        if 1 <= dist <= s.len() {
            assert forall|k: int| s.len() <= k < s.len() + len implies #[trigger] r[k] == r[k - dist] by {
                if k == s.len() {
                    assert(r.subrange(0, t.len() as int)[k] == t[k]);
                    assert(r.subrange(0, t.len() as int)[k - dist] == t[k - dist]);
                }
            }
        }
    } else {
        assert(s.subrange(0, s.len() as int) =~= s);
    }
}

/// The bytes a fixed-Huffman block at bit `idx` adds to `out`, and the bit index after its
/// end-of-block symbol. `None` where the stream is malformed or ends too early.
pub open spec fn decode_fixed(s: Seq<bool>, idx: int, out: Seq<u8>) -> Option<(Seq<u8>, int)>
    decreases s.len() - idx,
{
    match parse_fixed_token(s, idx) {
        None => None,
        Some((tok, next)) => {
            proof {
                lemma_parse_fixed_token(s, idx);
            }
            match tok {
                AsciiNum::Ascii(v) => {
                    if v == 256 {
                        Some((out, next))
                    } else {
                        decode_fixed(s, next, out.push(v as u8))
                    }
                },
                AsciiNum::LenDist((l, d)) => {
                    if d > out.len() {
                        None
                    } else {
                        decode_fixed(s, next, lz77_copy(out, l as nat, d as nat))
                    }
                },
            }
        },
    }
}

/// The smallest length of length code `num` that has `bits_to_read` extra bits.
pub fn get_lower_bound(bits_to_read: usize, num: u16) -> (lower: u16)
    requires
        bits_to_read < 7,
        num >= 257,
    ensures
        lower == lower_bound_spec(bits_to_read as int, num as int),
{
    let starting_point = LENGTH_STARTING[bits_to_read];
    if num < 265 {
        return num - 257 + 3;
    }
    proof {
        lemma2_to64();
        lemma_pow2_strictly_increases(bits_to_read as nat, 7);
        vstd::bits::lemma_u16_shl_is_mul(1u16, bits_to_read as u16);
        assert(LENGTH_STARTING[0] == 3 && LENGTH_STARTING[1] == 11 && LENGTH_STARTING[2] == 19);
        assert(LENGTH_STARTING[3] == 35 && LENGTH_STARTING[4] == 67 && LENGTH_STARTING[5] == 131);
        assert(LENGTH_STARTING[6] == 258);
    }
    let weight = 1u16 << (bits_to_read as u16);
    let step = (num - 265) % 4;
    assert(step * weight <= 3 * 128) by (nonlinear_arith)
        requires
            step <= 3,
            weight < 128,
    ;
    let ans = step * weight + starting_point;
    ans
}

/// Which entry of `BITS_TO_READ` among the first `c` holds `num` (the last one that does), or 0.
pub open spec fn extra_bits_found(num: int, c: int) -> int {
    if 265 <= num <= 284 && (num - 261) / 4 < c {
        (num - 261) / 4
    } else {
        0
    }
}

/// Reads one symbol of a fixed-Huffman block at bit `*idx` of `buffer` (each byte read from
/// its most significant bit) and moves `*idx` past it and its extra bits.
pub fn get_num_buffer(buffer: &[u8], idx: &mut usize) -> (token: AsciiNum)
    requires
        buffer@.len() <= usize::MAX / 8,
        parse_fixed_token(msb_stream(buffer@), *old(idx) as int) is Some,
    ensures
        parse_fixed_token(msb_stream(buffer@), *old(idx) as int) == Some((token, *final(idx) as int)),
{
    let ghost s = msb_stream(buffer@);
    let ghost start = *idx as int;
    proof {
        lemma_parse_fixed_token(s, start);
        lemma_fixed_literal_code(s, start);
        lemma_msb_bits_window(buffer@, start, 7);
    }
    let mut bits = get_n_bits_reverse(buffer, *idx, 7);
    let mut num = get_num(&bits);
    let bound = CHARACTER_BOUNDS[0].1;
    let mut bits_offset: usize;
    if num <= bound {
        num = num + 256;
        bits_offset = 7;
    } else {
        proof {
            lemma_msb_bits_window(buffer@, start, 8);
            lemma_be_value_extend(s, start, start + 7);
        }
        bits = get_n_bits_reverse(buffer, *idx, 8);
        num = get_num(&bits);
        bits_offset = 8;
        if num >= CHARACTER_BOUNDS[1].0 && num <= CHARACTER_BOUNDS[1].1 {
            num -= CHARACTER_BOUNDS[1].0;
        } else if num >= CHARACTER_BOUNDS[2].0 && num <= CHARACTER_BOUNDS[2].1 {
            num -= CHARACTER_BOUNDS[2].0;
            num = num + 280;
        } else {
            proof {
                lemma_msb_bits_window(buffer@, start, 9);
                lemma_be_value_extend(s, start, start + 8);
                lemma_be_value_bound(s.subrange(start, start + 9));
                lemma2_to64();
            }
            bits = get_n_bits_reverse(buffer, *idx, 9);
            num = get_num(&bits);
            bits_offset = 9;
            // The first eight bits are at least 200 here, so the nine bits lie in 400..=511.
            num -= CHARACTER_BOUNDS[3].0;
            num = num + 144;
        }
    }
    assert(fixed_literal_code(s, start) == Some((num as int, bits_offset as int)));
    if num < 257 {
        *idx = *idx + bits_offset;
        return AsciiNum::Ascii(num);
    }
    // A length code: find how many extra bits follow it.

    let mut cnt: usize = 0;
    let mut len_bits_to_read: usize = 0;
    while cnt < 6
        invariant
            cnt <= 6,
            257 <= num <= 287,
            len_bits_to_read == extra_bits_found(num as int, cnt as int),
        decreases 6 - cnt,
    {
        let (x, y) = BITS_TO_READ[cnt];
        assert(cnt == 0 ==> x == 257 && y == 264);
        assert(cnt > 0 ==> x == 261 + 4 * cnt && y == 264 + 4 * cnt);
        if num >= x && num <= y {
            len_bits_to_read = cnt;
        }
        cnt += 1;
    }
    assert(len_bits_to_read == length_extra_bits(num as int));
    let p = *idx + bits_offset;
    proof {
        lemma_msb_bits_window(buffer@, p as int, len_bits_to_read as int);
        lemma_le_value_bound(s.subrange(p as int, p + len_bits_to_read));
        lemma2_to64();
        if len_bits_to_read < 6 {
            lemma_pow2_strictly_increases(len_bits_to_read as nat, 6);
        }
        if num != 285 {
            lemma_length_range(num as int, le_value(s.subrange(p as int, p + len_bits_to_read)) as int);
        }
    }
    let additional_bits = get_n_bits_reverse(buffer, *idx + bits_offset, len_bits_to_read);
    let mut length = get_lower_bound(len_bits_to_read, num) + get_num_reverse(&additional_bits);
    if num == 285 {
        length = 258;
        len_bits_to_read = 0;
    }
    let q = *idx + bits_offset + len_bits_to_read;
    proof {
        lemma_msb_bits_window(buffer@, q as int, 5);
    }
    let dist_bits = get_n_bits_reverse(buffer, *idx + bits_offset + len_bits_to_read, DISTANCE_BITS);
    let dist_num = get_num(&dist_bits);
    // Distance codes above 29 are excluded by the precondition.
    if dist_num < 4 {
        *idx = *idx + bits_offset + len_bits_to_read + DISTANCE_BITS;
        return AsciiNum::LenDist((length, dist_num + 1));
    }
    let dist_bits_to_read = ((dist_num - 4) / 2 + 1) as usize;
    let r = q + DISTANCE_BITS;
    proof {
        lemma_msb_bits_window(buffer@, r as int, dist_bits_to_read as int);
        lemma_le_value_bound(s.subrange(r as int, r + dist_bits_to_read));
        lemma_distance_range(dist_num as int, le_value(s.subrange(r as int, r + dist_bits_to_read)) as int);
        if dist_bits_to_read < 13 {
            lemma_pow2_strictly_increases(dist_bits_to_read as nat, 13);
        }
        vstd::bits::lemma_u16_shl_is_mul(1u16, dist_bits_to_read as u16);
        assert(DISTANCE_CODES[13] == 16385);
        assert(forall|i: int| 0 <= i < 14 ==> DISTANCE_CODES[i] <= 16385);
    }
    let distance_lower_for_bits = DISTANCE_CODES[dist_bits_to_read];
    let distance_lower = (dist_num % 2) * (1u16 << (dist_bits_to_read as u16)) + distance_lower_for_bits;
    let total_distance = get_num_reverse(
        &get_n_bits_reverse(buffer, *idx + bits_offset + len_bits_to_read + DISTANCE_BITS, dist_bits_to_read),
    ) + distance_lower;
    *idx = *idx + bits_offset + len_bits_to_read + DISTANCE_BITS + dist_bits_to_read;
    AsciiNum::LenDist((length, total_distance))
}

/// Appends `value.0` bytes to `decoded`, each copied from `value.1` bytes back.
pub fn decode_lz77(value: (u16, u16), decoded: &mut Vec<u8>)
    requires
        value.1 <= old(decoded)@.len(),
        value.0 == 0 || value.1 >= 1,
    ensures
        final(decoded)@ == lz77_copy(old(decoded)@, value.0 as nat, value.1 as nat),
{
    let mut curr_pointer = decoded.len() - value.1 as usize;
    let n = value.0 as usize;
    let mut i: usize = 0;
    while i < n
        invariant
            i <= n,
            n == value.0,
            value.0 == 0 || value.1 >= 1,
            curr_pointer + value.1 == decoded@.len(),
            lz77_copy(decoded@, (n - i) as nat, value.1 as nat) == lz77_copy(
                old(decoded)@,
                value.0 as nat,
                value.1 as nat,
            ),
        decreases n - i,
    {
        let character = decoded[curr_pointer];
        decoded.push(character);
        // The next byte to copy is again `value.1` bytes back from the end.
        curr_pointer = decoded.len() - value.1 as usize;
        i += 1;
    }
    assert(lz77_copy(decoded@, 0, value.1 as nat) == decoded@);
}

/// Decodes a fixed-Huffman block starting at bit `*idx` (after its three header bits),
/// appending its bytes to `file_data` and leaving `*idx` after the end-of-block symbol.
pub fn decode_deflate(buffer: &[u8], idx: &mut usize, file_data: &mut Vec<u8>)
    requires
        buffer@.len() <= usize::MAX / 8,
        decode_fixed(msb_stream(buffer@), *old(idx) as int, old(file_data)@) is Some,
    ensures
        decode_fixed(msb_stream(buffer@), *old(idx) as int, old(file_data)@) == Some(
            (final(file_data)@, *final(idx) as int),
        ),
{
    let ghost s = msb_stream(buffer@);
    let ghost goal = decode_fixed(s, *idx as int, file_data@);
    loop
        invariant_except_break
            buffer@.len() <= usize::MAX / 8,
            s == msb_stream(buffer@),
            goal is Some,
            decode_fixed(s, *idx as int, file_data@) == goal,
            *idx <= s.len(),
        ensures
            goal == Some((file_data@, *idx as int)),
        decreases s.len() - *idx,
    {
        proof {
            lemma_parse_fixed_token(s, *idx as int);
        }
        let ascii = get_num_buffer(buffer, idx);
        match ascii {
            AsciiNum::Ascii(value) => {
                if value == 256 {
                    break;
                }
                file_data.push(value as u8);
            },
            AsciiNum::LenDist(value) => {
                decode_lz77(value, file_data);
            },
        }
    }
}

} // verus!
