//! Inflating streams that may be malformed: every step first checks that the stream holds
//! what it needs, and a malformed or truncated stream gives `None`.
use vstd::prelude::*;
use vstd::arithmetic::power2::lemma2_to64;
use crate::{AsciiNum, CODE_LENGTH_ORDER};
use crate::inflate::{dynamic_block, inflate_blocks, lsb_stream, code_length_table, reverse_bits_of_bytes, lemma_code_length_order_ok};
use crate::dynamic::{read_fields3, get_code_length_code_matrix};
use crate::bits::{
    be_value, le_value, msb_stream, lemma_msb_bits_window, lemma_be_value_bound, lemma_le_value_bound,
    get_n_bits_reverse, get_num, get_num_reverse,
};
use crate::fixed::{
    parse_fixed_token, fixed_literal_code, decode_fixed, length_extra_bits, distance_extra_bits,
    lemma_parse_fixed_token, get_num_buffer, decode_lz77,
};
use crate::dynamic::{
    rows_view, table_search, table_decode, lemma_table_search, read_lengths, zeros, canonical_fits,
    next_code_spec, count_len, max_len, lemma_max_len, lemma_count_len_bound, dynamic_table, iota,
    decode_dyn, parse_length_dist, lemma_parse_length_dist, process_length, convert_code_lengths_matrix,
    alphabet_ok,
};

verus! {

/// The value of the `n` bits at `idx`, most significant first, if they lie within the buffer.
fn bits_msb(buffer: &[u8], idx: usize, n: usize) -> (v: Option<u16>)
    requires
        buffer@.len() <= usize::MAX / 8,
        n <= 16,
    ensures
        match v {
            None => idx + n > 8 * buffer@.len(),
            Some(x) => idx + n <= 8 * buffer@.len() && x == be_value(
                msb_stream(buffer@).subrange(idx as int, idx + n),
            ),
        },
{
    let total = 8 * buffer.len();
    if idx > total || n > total - idx {
        return None;
    }
    proof {
        lemma_msb_bits_window(buffer@, idx as int, n as int);
    }
    Some(get_num(&get_n_bits_reverse(buffer, idx, n)))
}

/// The value of the `n` bits at `idx`, least significant first, if they lie within the buffer.
fn bits_lsb(buffer: &[u8], idx: usize, n: usize) -> (v: Option<u16>)
    requires
        buffer@.len() <= usize::MAX / 8,
        n <= 16,
    ensures
        match v {
            None => idx + n > 8 * buffer@.len(),
            Some(x) => idx + n <= 8 * buffer@.len() && x == le_value(
                msb_stream(buffer@).subrange(idx as int, idx + n),
            ),
        },
{
    let total = 8 * buffer.len();
    if idx > total || n > total - idx {
        return None;
    }
    proof {
        lemma_msb_bits_window(buffer@, idx as int, n as int);
    }
    Some(get_num_reverse(&get_n_bits_reverse(buffer, idx, n)))
}

/// Reads one symbol of a fixed-Huffman block at `*idx` and moves `*idx` past it, or gives
/// `None` where there is none.
fn try_fixed_symbol(buffer: &[u8], idx: &mut usize) -> (token: Option<AsciiNum>)
    requires
        buffer@.len() <= usize::MAX / 8,
    ensures
        match token {
            None => parse_fixed_token(msb_stream(buffer@), *old(idx) as int) is None,
            Some(t) => parse_fixed_token(msb_stream(buffer@), *old(idx) as int) == Some((t, *final(idx) as int)),
        },
{
    let ghost s = msb_stream(buffer@);
    let start = *idx;
    let total = 8 * buffer.len();
    let (num, clen): (u16, usize) = match bits_msb(buffer, start, 7) {
        None => {
            return None;
        },
        Some(v7) => {
            if v7 <= 23 {
                (v7 + 256, 7)
            } else {
                match bits_msb(buffer, start, 8) {
                    None => {
                        return None;
                    },
                    Some(v8) => {
                        if 48 <= v8 && v8 <= 191 {
                            (v8 - 48, 8)
                        } else if 192 <= v8 && v8 <= 199 {
                            (v8 - 192 + 280, 8)
                        } else {
                            match bits_msb(buffer, start, 9) {
                                None => {
                                    return None;
                                },
                                Some(v9) => {
                                    if 400 <= v9 && v9 <= 511 {
                                        (v9 - 400 + 144, 9)
                                    } else {
                                        return None;
                                    }
                                },
                            }
                        }
                    },
                }
            }
        },
    };
    assert(fixed_literal_code(s, start as int) == Some((num as int, clen as int)));
    if num >= 257 {
        let lb: usize = if 265 <= num && num <= 284 {
            ((num - 261) / 4) as usize
        } else {
            0
        };
        assert(lb == length_extra_bits(num as int));
        let q = start + clen + lb;
        match bits_msb(buffer, q, 5) {
            None => {
                return None;
            },
            Some(dn) => {
                if dn > 29 {
                    return None;
                }
                let k: usize = if dn < 4 {
                    0
                } else {
                    ((dn - 4) / 2 + 1) as usize
                };
                assert(k == distance_extra_bits(dn as int));
                if k > total - (q + 5) {
                    return None;
                }
            },
        }
    }
    Some(get_num_buffer(buffer, idx))
}

/// Decodes a fixed-Huffman block from `*idx` (after its three header bits), appending its
/// bytes to `file_data`. Whether the block decodes; if so, `*idx` is after its end.
fn try_decode_fixed(buffer: &[u8], idx: &mut usize, file_data: &mut Vec<u8>) -> (ok: bool)
    requires
        buffer@.len() <= usize::MAX / 8,
    ensures
        ok == decode_fixed(msb_stream(buffer@), *old(idx) as int, old(file_data)@) is Some,
        ok ==> decode_fixed(msb_stream(buffer@), *old(idx) as int, old(file_data)@) == Some(
            (final(file_data)@, *final(idx) as int),
        ),
{
    let ghost s = msb_stream(buffer@);
    let ghost goal = decode_fixed(s, *idx as int, file_data@);
    if *idx > 8 * buffer.len() {
        assert(parse_fixed_token(s, *idx as int) is None);
        return false;
    }
    loop
        invariant_except_break
            buffer@.len() <= usize::MAX / 8,
            s == msb_stream(buffer@),
            goal == decode_fixed(s, *old(idx) as int, old(file_data)@),
            decode_fixed(s, *idx as int, file_data@) == goal,
            *idx <= s.len(),
        ensures
            goal == decode_fixed(s, *old(idx) as int, old(file_data)@),
            goal == Some((file_data@, *idx as int)),
        decreases s.len() - *idx,
    {
        let ghost i0 = *idx as int;
        let ghost out0 = file_data@;
        match try_fixed_symbol(buffer, idx) {
            None => {
                assert(decode_fixed(s, i0, out0) is None);
                return false;
            },
            Some(AsciiNum::Ascii(value)) => {
                proof {
                    lemma_parse_fixed_token(s, i0);
                }
                if value == 256 {
                    break;
                }
                file_data.push(value as u8);
            },
            Some(AsciiNum::LenDist(value)) => {
                proof {
                    lemma_parse_fixed_token(s, i0);
                }
                if value.1 as usize > file_data.len() {
                    assert(decode_fixed(s, i0, out0) is None);
                    return false;
                }
                decode_lz77(value, file_data);
            },
        }
    }
    true
}

/// Decodes one symbol with a decoding table at `*idx` and moves `*idx` past its code, or
/// gives `None` (leaving `*idx`) where no code of the table is there.
fn try_table_decode(tree: &Vec<[u16; 100000]>, buffer: &[u8], idx: &mut usize) -> (val: Option<u16>)
    requires
        buffer@.len() <= usize::MAX / 8,
    ensures
        match val {
            None => table_decode(rows_view(tree@), msb_stream(buffer@), *old(idx) as int) is None
                && *final(idx) == *old(idx),
            Some(v) => table_decode(rows_view(tree@), msb_stream(buffer@), *old(idx) as int) == Some(
                (v, *final(idx) as int),
            ),
        },
{
    let ghost t = rows_view(tree@);
    let ghost s = msb_stream(buffer@);
    let start = *idx;
    let mut n: usize = 0;
    while n <= 16 && n < tree.len()
        invariant
            buffer@.len() <= usize::MAX / 8,
            t == rows_view(tree@),
            s == msb_stream(buffer@),
            *idx == start,
            start == *old(idx),
            n <= 17,
            table_search(t, s, start as int, n as int) == table_decode(t, s, start as int),
        decreases 17 - n,
    {
        match bits_msb(buffer, start, n) {
            None => {
                return None;
            },
            Some(num) => {
                proof {
                    lemma_be_value_bound(s.subrange(start as int, start + n));
                    lemma2_to64();
                    if n < 16 {
                        vstd::arithmetic::power2::lemma_pow2_strictly_increases(n as nat, 16);
                    }
                }
                let v = tree[n][num as usize];
                assert(t[n as int][num as int] == v);
                if v != u16::MAX {
                    *idx = start + n;
                    return Some(v);
                }
            },
        }
        n += 1;
    }
    None
}

/// Reads code lengths with the code-length table until `num_codes` are known, or gives
/// `None` where the stream is malformed or ends too early.
pub(crate) fn try_read_lengths(tree: &Vec<[u16; 100000]>, buffer: &[u8], idx: &mut usize, num_codes: usize) -> (lens:
    Option<Vec<u16>>)
    requires
        buffer@.len() <= usize::MAX / 8,
        num_codes <= 65536,
    ensures
        match lens {
            None => read_lengths(
                rows_view(tree@),
                msb_stream(buffer@),
                *old(idx) as int,
                Seq::empty(),
                num_codes as int,
            ) is None,
            Some(l) => read_lengths(
                rows_view(tree@),
                msb_stream(buffer@),
                *old(idx) as int,
                Seq::empty(),
                num_codes as int,
            ) == Some((l@, *final(idx) as int)) && l@.len() == num_codes,
        },
{
    let ghost t = rows_view(tree@);
    let ghost s = msb_stream(buffer@);
    let ghost goal = read_lengths(t, s, *idx as int, Seq::empty(), num_codes as int);
    let mut lens: Vec<u16> = Vec::new();
    while lens.len() < num_codes
        invariant
            buffer@.len() <= usize::MAX / 8,
            num_codes <= 65536,
            t == rows_view(tree@),
            s == msb_stream(buffer@),
            lens@.len() <= num_codes,
            goal == read_lengths(t, s, *old(idx) as int, Seq::empty(), num_codes as int),
            read_lengths(t, s, *idx as int, lens@, num_codes as int) == goal,
        decreases num_codes - lens@.len(),
    {
        let ghost i0 = *idx as int;
        let ghost l0 = lens@;
        match try_table_decode(tree, buffer, idx) {
            None => {
                return None;
            },
            Some(val) => {
                if val == 18 || val == 17 || val == 16 {
                    let nbits: usize = if val == 18 {
                        7
                    } else if val == 17 {
                        3
                    } else {
                        2
                    };
                    let base: usize = if val == 18 {
                        11
                    } else {
                        3
                    };
                    match bits_lsb(buffer, *idx, nbits) {
                        None => {
                            return None;
                        },
                        Some(r0) => {
                            proof {
                                lemma_le_value_bound(s.subrange(*idx as int, *idx + nbits));
                                lemma2_to64();
                            }
                            let repeats = r0 as usize + base;
                            if repeats > num_codes - lens.len() || (val == 16 && lens.len() == 0) {
                                return None;
                            }
                            let fill = if val == 16 {
                                lens[lens.len() - 1]
                            } else {
                                0
                            };
                            let mut k: usize = 0;
                            while k < repeats
                                invariant
                                    k <= repeats,
                                    lens@ == l0 + Seq::new(k as nat, |j: int| fill),
                                decreases repeats - k,
                            {
                                lens.push(fill);
                                k += 1;
                                assert(l0 + Seq::new(k as nat, |j: int| fill) =~= (l0 + Seq::new(
                                    (k - 1) as nat,
                                    |j: int| fill,
                                )).push(fill));
                            }
                            proof {
                                if val == 16 {
                                    assert(Seq::new(repeats as nat, |j: int| fill) =~= Seq::new(
                                        repeats as nat,
                                        |j: int| l0.last(),
                                    ));
                                } else {
                                    assert(Seq::new(repeats as nat, |j: int| fill) =~= zeros(repeats as nat));
                                }
                            }
                            *idx += nbits;
                        },
                    }
                } else {
                    lens.push(val);
                }
            },
        }
    }
    Some(lens)
}

/// How many entries of `lens` equal `l`.
fn count_of(lens: &Vec<u16>, l: u16) -> (c: u64)
    requires
        lens@.len() <= 65536,
    ensures
        c == count_len(lens@, l as int),
{
    let mut c: u64 = 0;
    let mut i: usize = 0;
    while i < lens.len()
        invariant
            lens@.len() <= 65536,
            i <= lens@.len(),
            c == count_len(lens@.take(i as int), l as int),
            c <= i,
        decreases lens@.len() - i,
    {
        assert(lens@.take(i + 1).drop_last() =~= lens@.take(i as int));
        if lens[i] == l {
            c += 1;
        }
        i += 1;
    }
    assert(lens@.take(lens@.len() as int) =~= lens@);
    c
}

/// A first code, kept exact up to 100000 and cut to 100001 above.
spec fn capped(x: nat) -> nat {
    if x > 100000 {
        100001
    } else {
        x
    }
}

/// Whether the code lengths describe a table that fits (`canonical_fits`).
fn fits_check(lens: &Vec<u16>) -> (fits: bool)
    requires
        lens@.len() <= 65536,
    ensures
        fits == canonical_fits(lens@),
{
    let mut m: u16 = 0;
    let mut i: usize = 0;
    while i < lens.len()
        invariant
            i <= lens@.len(),
            m == max_len(lens@.take(i as int)),
        decreases lens@.len() - i,
    {
        assert(lens@.take(i + 1).drop_last() =~= lens@.take(i as int));
        if lens[i] > m {
            m = lens[i];
        }
        i += 1;
    }
    assert(lens@.take(lens@.len() as int) =~= lens@);
    proof {
        lemma_max_len(lens@);
    }
    let mut nc: Vec<u64> = Vec::new();
    nc.push(0);
    let mut l: usize = 1;
    while l <= m as usize
        invariant
            lens@.len() <= 65536,
            1 <= l <= m as usize + 1,
            nc@.len() == l,
            forall|j: int| 0 <= j < l ==> #[trigger] nc@[j] == capped(next_code_spec(lens@, j as nat)),
        decreases m as usize + 1 - l,
    {
        let prev = nc[l - 1];
        let cnt: u64 = if l - 1 == 0 {
            0
        } else {
            count_of(lens, (l - 1) as u16)
        };
        proof {
            lemma_count_len_bound(lens@, (l - 1) as int);
        }
        let next: u64 = if prev > 100000 {
            100001
        } else {
            let x = 2 * (prev + cnt);
            if x > 100000 {
                100001
            } else {
                x
            }
        };
        nc.push(next);
        l += 1;
    }
    let mut i: usize = 0;
    while i < lens.len()
        invariant
            lens@.len() <= 65536,
            i <= lens@.len(),
            nc@.len() == m as usize + 1,
            forall|k: int| 0 <= k < lens@.len() ==> lens@[k] <= m,
            forall|j: int| 0 <= j < nc@.len() ==> #[trigger] nc@[j] == capped(next_code_spec(lens@, j as nat)),
            forall|k: int|
                0 <= k < i && lens@[k] != 0 ==> next_code_spec(lens@, lens@[k] as nat) + count_len(
                    lens@,
                    lens@[k] as int,
                ) <= 100000,
        decreases lens@.len() - i,
    {
        let len_i = lens[i];
        if len_i != 0 {
            let c = count_of(lens, len_i);
            proof {
                lemma_count_len_bound(lens@, len_i as int);
            }
            if nc[len_i as usize] + c > 100000 {
                assert(nc@[len_i as int] == capped(next_code_spec(lens@, len_i as nat)));
                return false;
            }
        }
        i += 1;
    }
    true
}

/// The canonical decoding table of the symbols `0..lens.len()` with these code lengths.
pub(crate) fn table_of(lens: &Vec<u16>) -> (tree: Vec<[u16; 100000]>)
    requires
        1 <= lens@.len() <= 65536,
        canonical_fits(lens@),
    ensures
        rows_view(tree@) == dynamic_table(lens@),
{
    let n = lens.len();
    let mut alphabet: Vec<u16> = Vec::new();
    let mut x: usize = 0;
    while x < n
        invariant
            n == lens@.len(),
            x <= n <= 65536,
            alphabet@ =~= iota(x as nat),
        decreases n - x,
    {
        alphabet.push(x as u16);
        x += 1;
    }
    proof {
        assert forall|i: int, j: int| 0 <= i < n && 0 <= j < alphabet@.len() && i != j implies alphabet@[i]
            != alphabet@[j] by {
            assert(alphabet@[i] == i as u16 && alphabet@[j] == j as u16);
        }
    }
    convert_code_lengths_matrix(lens, alphabet)
}

/// The first `k` code lengths, and the rest.
pub(crate) fn split_lengths(lens: &Vec<u16>, k: usize) -> (parts: (Vec<u16>, Vec<u16>))
    requires
        k <= lens@.len(),
    ensures
        parts.0@ == lens@.subrange(0, k as int),
        parts.1@ == lens@.subrange(k as int, lens@.len() as int),
{
    let mut first: Vec<u16> = Vec::new();
    let mut rest: Vec<u16> = Vec::new();
    let mut i: usize = 0;
    while i < lens.len()
        invariant
            k <= lens@.len(),
            i <= lens@.len(),
            first@ == lens@.subrange(0, if i < k { i as int } else { k as int }),
            rest@ == (if i <= k { Seq::empty() } else { lens@.subrange(k as int, i as int) }),
        decreases lens@.len() - i,
    {
        if i < k {
            first.push(lens[i]);
            assert(lens@.subrange(0, i + 1) =~= lens@.subrange(0, i as int).push(lens@[i as int]));
        } else {
            rest.push(lens[i]);
            assert(lens@.subrange(k as int, i + 1) =~= (if i <= k { Seq::empty() } else { lens@.subrange(
                k as int,
                i as int,
            ) }).push(lens@[i as int]));
        }
        i += 1;
    }
    (first, rest)
}

/// Reads the extra length bits after length symbol `num`, a distance code with the table
/// `distance_tree` and its extra bits, moving `*idx` past them; `None` where they are not
/// there.
fn try_parse_length_dist(num: u16, buffer: &[u8], idx: &mut usize, distance_tree: &Vec<[u16; 100000]>) -> (token:
    Option<AsciiNum>)
    requires
        257 <= num <= 287,
        buffer@.len() <= usize::MAX / 8,
    ensures
        match token {
            None => parse_length_dist(rows_view(distance_tree@), msb_stream(buffer@), *old(idx) as int, num as int)
                is None,
            Some(t) => parse_length_dist(
                rows_view(distance_tree@),
                msb_stream(buffer@),
                *old(idx) as int,
                num as int,
            ) == Some((t, *final(idx) as int)),
        },
{
    let ghost dt = rows_view(distance_tree@);
    let ghost s = msb_stream(buffer@);
    let total = 8 * buffer.len();
    let start = *idx;
    let lb: usize = if 265 <= num && num <= 284 {
        ((num - 261) / 4) as usize
    } else {
        0
    };
    assert(lb == length_extra_bits(num as int));
    if start > total || lb > total - start {
        return None;
    }
    let mut probe = start + lb;
    match try_table_decode(distance_tree, buffer, &mut probe) {
        None => {
            return None;
        },
        Some(dn) => {
            proof {
                lemma_table_search(dt, s, start + lb, 0);
            }
            if dn > 29 {
                return None;
            }
            let k: usize = if dn < 4 {
                0
            } else {
                ((dn - 4) / 2 + 1) as usize
            };
            assert(k == distance_extra_bits(dn as int));
            if k > total - probe {
                return None;
            }
        },
    }
    Some(process_length(num, buffer, idx, distance_tree))
}

/// Decodes the data of a dynamic block with its two tables from `*idx`, appending its bytes to
/// `file_data`. Whether it decodes; if so, `*idx` is after its end-of-block symbol.
fn try_decode_dynamic(
    literal_tree: &Vec<[u16; 100000]>,
    distance_tree: &Vec<[u16; 100000]>,
    buffer: &[u8],
    idx: &mut usize,
    file_data: &mut Vec<u8>,
) -> (ok: bool)
    requires
        buffer@.len() <= usize::MAX / 8,
    ensures
        ok == decode_dyn(
            rows_view(literal_tree@),
            rows_view(distance_tree@),
            msb_stream(buffer@),
            *old(idx) as int,
            old(file_data)@,
        ) is Some,
        ok ==> decode_dyn(
            rows_view(literal_tree@),
            rows_view(distance_tree@),
            msb_stream(buffer@),
            *old(idx) as int,
            old(file_data)@,
        ) == Some((final(file_data)@, *final(idx) as int)),
{
    let ghost lt = rows_view(literal_tree@);
    let ghost dt = rows_view(distance_tree@);
    let ghost s = msb_stream(buffer@);
    let ghost goal = decode_dyn(lt, dt, s, *idx as int, file_data@);
    if *idx > 8 * buffer.len() {
        return false;
    }
    loop
        invariant_except_break
            buffer@.len() <= usize::MAX / 8,
            lt == rows_view(literal_tree@),
            dt == rows_view(distance_tree@),
            s == msb_stream(buffer@),
            goal == decode_dyn(lt, dt, s, *old(idx) as int, old(file_data)@),
            decode_dyn(lt, dt, s, *idx as int, file_data@) == goal,
            *idx <= s.len(),
        ensures
            goal == decode_dyn(lt, dt, s, *old(idx) as int, old(file_data)@),
            goal == Some((file_data@, *idx as int)),
        decreases s.len() - *idx,
    {
        let i0 = *idx;
        let ghost out0 = file_data@;
        match try_table_decode(literal_tree, buffer, idx) {
            None => {
                return false;
            },
            Some(val) => {
                proof {
                    lemma_table_search(lt, s, i0 as int, 0);
                }
                if val == 256 {
                    break;
                }
                if val > 256 {
                    if val > 287 {
                        return false;
                    }
                    let i1 = *idx;
                    match try_parse_length_dist(val, buffer, idx, distance_tree) {
                        None => {
                            return false;
                        },
                        Some(AsciiNum::LenDist(value)) => {
                            proof {
                                lemma_parse_length_dist(dt, s, i1 as int, val as int);
                            }
                            if *idx <= i0 || value.1 as usize > file_data.len() {
                                return false;
                            }
                            decode_lz77(value, file_data);
                        },
                        Some(AsciiNum::Ascii(_)) => {
                            return false;
                        },
                    }
                } else {
                    if *idx <= i0 {
                        return false;
                    }
                    file_data.push(val as u8);
                }
            },
        }
    }
    true
}

/// Decodes a dynamic block from `*idx` (after its three header bits): the code counts, the
/// code-length code, the literal/length and distance code lengths, then the data. Whether
/// it decodes; if so, `*idx` is after its end-of-block symbol.
fn try_dynamic_block(buffer: &[u8], idx: &mut usize, file_data: &mut Vec<u8>) -> (ok: bool)
    requires
        buffer@.len() <= usize::MAX / 8,
    ensures
        ok == dynamic_block(msb_stream(buffer@), *old(idx) as int, old(file_data)@) is Some,
        ok ==> dynamic_block(msb_stream(buffer@), *old(idx) as int, old(file_data)@) == Some(
            (final(file_data)@, *final(idx) as int),
        ),
{
    reveal(dynamic_block);
    let ghost s = msb_stream(buffer@);
    let total = 8 * buffer.len();
    let start = *idx;
    if start > total || 14 > total - start {
        return false;
    }
    let hlit = match bits_lsb(buffer, start, 5) {
        Some(v) => v,
        None => {
            return false;
        },
    };
    let hdist = match bits_lsb(buffer, start + 5, 5) {
        Some(v) => v,
        None => {
            return false;
        },
    };
    let hclen = match bits_lsb(buffer, start + 10, 4) {
        Some(v) => v,
        None => {
            return false;
        },
    };
    proof {
        lemma_le_value_bound(s.subrange(start as int, start + 5));
        lemma_le_value_bound(s.subrange(start + 5, start + 10));
        lemma_le_value_bound(s.subrange(start + 10, start + 14));
        lemma2_to64();
        lemma_code_length_order_ok();
    }
    let p = start + 14;
    if 3 * (hclen as usize + 4) > total - p {
        return false;
    }
    *idx = p;
    let code_lengths = get_code_length_code_matrix(buffer, idx, hclen);
    if !fits_check(&code_lengths) {
        return false;
    }
    let alphabet: Vec<u16> = vec![16, 17, 18, 0, 8, 7, 9, 6, 10, 5, 11, 4, 12, 3, 13, 2, 14, 1, 15];
    assert(alphabet@ =~= CODE_LENGTH_ORDER@);
    let mat = convert_code_lengths_matrix(&code_lengths, alphabet);
    assert(rows_view(mat@) == code_length_table(code_lengths@));
    let n_lit = hlit as usize + 257;
    let lens = match try_read_lengths(&mat, buffer, idx, n_lit + hdist as usize + 1) {
        Some(l) => l,
        None => {
            return false;
        },
    };
    let (lit_lens, dist_lens) = split_lengths(&lens, n_lit);
    if !fits_check(&lit_lens) || !fits_check(&dist_lens) {
        return false;
    }
    let lit_codes = table_of(&lit_lens);
    let dist_codes = table_of(&dist_lens);
    try_decode_dynamic(&lit_codes, &dist_codes, buffer, idx, file_data)
}

/// Inflates a raw DEFLATE stream that may be malformed: the decoded bytes, or `None` where
/// the stream is malformed or ends before its final block does.
pub fn try_inflate(deflate_stream: &[u8]) -> (file_data: Option<Vec<u8>>)
    requires
        deflate_stream@.len() <= usize::MAX / 8,
    ensures
        match file_data {
            None => inflate_blocks(lsb_stream(deflate_stream@), 0, Seq::empty()) is None,
            Some(d) => inflate_blocks(lsb_stream(deflate_stream@), 0, Seq::empty()) is Some && d@
                == inflate_blocks(lsb_stream(deflate_stream@), 0, Seq::empty()).unwrap().0,
        },
{
    reveal(inflate_blocks);
    let block_header = reverse_bits_of_bytes(deflate_stream);
    let ghost s = msb_stream(block_header@);
    let ghost goal = inflate_blocks(s, 0, Seq::empty());
    let total = 8 * block_header.len();
    let mut idx: usize = 0;
    let mut file_data: Vec<u8> = Vec::new();
    loop
        invariant_except_break
            block_header@.len() <= usize::MAX / 8,
            total == s.len(),
            s == msb_stream(block_header@),
            inflate_blocks(s, idx as int, file_data@) == goal,
            idx <= s.len(),
            goal == inflate_blocks(lsb_stream(deflate_stream@), 0, Seq::empty()),
        ensures
            goal == Some((file_data@, idx as int)),
            goal == inflate_blocks(lsb_stream(deflate_stream@), 0, Seq::empty()),
        decreases s.len() - idx,
    {
        reveal(inflate_blocks);
        let i0 = idx;
        let ghost out0 = file_data@;
        if 3 > total - idx {
            return None;
        }
        let bfinal = match bits_lsb(&block_header, idx, 1) {
            Some(b) => b != 0,
            None => {
                return None;
            },
        };
        let btype = match bits_lsb(&block_header, idx + 1, 2) {
            Some(b) => b,
            None => {
                return None;
            },
        };
        proof {
            let one = s.subrange(i0 as int, i0 + 1);
            assert(one.drop_first() =~= Seq::<bool>::empty());
            assert(one.first() == s[i0 as int]);
            reveal_with_fuel(le_value, 2);
        }
        idx += 3;
        let ok = if btype == 2 {
            try_dynamic_block(&block_header, &mut idx, &mut file_data)
        } else if btype == 1 {
            try_decode_fixed(&block_header, &mut idx, &mut file_data)
        } else {
            false
        };
        if !ok {
            return None;
        }
        if bfinal {
            break;
        }
        if idx <= i0 || idx > total {
            return None;
        }
    }
    Some(file_data)
}

} // verus!
