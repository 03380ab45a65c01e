//! Inflating DEFLATE streams: dynamic and fixed blocks, and the sequence of blocks.
use vstd::prelude::*;
use crate::bits::{le_value, msb_stream, msb_bit, lsb_bit, lemma_msb_bits_window, lemma_le_value_bound, get_n_bits_reverse, get_num_reverse};
use crate::fixed::{decode_fixed, decode_deflate};
use crate::dynamic::{
    read_fields3, canonical_fits, read_lengths, dynamic_table, decode_dyn, place_symbols, sorted_prefix,
    empty_rows, max_len, canonical_next, alphabet_ok, rows_view, get_code_length_code_matrix,
    convert_code_lengths_matrix, decode_dynamic,
};
use crate::CODE_LENGTH_ORDER;
use crate::checked::{try_read_lengths, split_lengths, table_of};

verus! {

/// The decoding table of the code-length code with these code lengths, symbols taken in
/// the order of `CODE_LENGTH_ORDER`.
pub open spec fn code_length_table(cl: Seq<u16>) -> Seq<Seq<u16>> {
    place_symbols(
        sorted_prefix(CODE_LENGTH_ORDER@, cl.len() as int),
        CODE_LENGTH_ORDER@,
        cl,
        empty_rows(max_len(cl) + 1),
        canonical_next(cl),
    ).0
}

#[verifier::opaque]
/// The bytes a dynamic block adds to `out`, from bit `idx` (after the three header bits) to
/// its end-of-block symbol, and the bit index after it. The literal/length and distance code
/// lengths are read as one sequence, so a repeat code may run from the one into the other.
/// `None` where the stream is malformed or ends too early.
pub open spec fn dynamic_block(s: Seq<bool>, idx: int, out: Seq<u8>) -> Option<(Seq<u8>, int)> {
    if idx < 0 || idx + 14 > s.len() {
        None
    } else {
        let hlit = le_value(s.subrange(idx, idx + 5)) as int;
        let hdist = le_value(s.subrange(idx + 5, idx + 10)) as int;
        let hclen = le_value(s.subrange(idx + 10, idx + 14)) as int;
        let p = idx + 14;
        if p + 3 * (hclen + 4) > s.len() {
            None
        } else {
            let cl = read_fields3(s, p, hclen + 4);
            if !canonical_fits(cl) {
                None
            } else {
                let mat = code_length_table(cl);
                match read_lengths(mat, s, p + 3 * (hclen + 4), Seq::empty(), hlit + 257 + hdist + 1) {
                    None => None,
                    Some((lens, p4)) => {
                        let llens = lens.subrange(0, hlit + 257);
                        let dlens = lens.subrange(hlit + 257, lens.len() as int);
                        if !canonical_fits(llens) || !canonical_fits(dlens) {
                            None
                        } else {
                            decode_dyn(dynamic_table(llens), dynamic_table(dlens), s, p4, out)
                        }
                    },
                }
            }
        }
    }
}

/// The code-length order lists 19 distinct symbols.
pub(crate) proof fn lemma_code_length_order_ok()
    ensures
        CODE_LENGTH_ORDER@.len() == 19,
        alphabet_ok(CODE_LENGTH_ORDER@, 19),
{
    let a = CODE_LENGTH_ORDER@;
    assert(a =~= seq![16u16, 17, 18, 0, 8, 7, 9, 6, 10, 5, 11, 4, 12, 3, 13, 2, 14, 1, 15]);
    // Each symbol below 19 sits at exactly one position.
    let pos = seq![3int, 17, 15, 13, 11, 9, 7, 5, 4, 6, 8, 10, 12, 14, 16, 18, 0, 1, 2];
    assert forall|i: int| 0 <= i < 19 implies a[i] < 19 && #[trigger] pos[a[i] as int] == i by {
        if i == 0 {} else if i == 1 {} else if i == 2 {} else if i == 3 {} else if i == 4 {}
        else if i == 5 {} else if i == 6 {} else if i == 7 {} else if i == 8 {} else if i == 9 {}
        else if i == 10 {} else if i == 11 {} else if i == 12 {} else if i == 13 {} else if i == 14 {}
        else if i == 15 {} else if i == 16 {} else if i == 17 {} else {}
    }
    assert forall|i: int, j: int| 0 <= i < 19 && 0 <= j < a.len() && i != j implies a[i] != a[j] by {
        assert(pos[a[i] as int] == i);
        assert(pos[a[j] as int] == j);
    }
}

/// Decodes a dynamic block from bit `*idx` (after its three header bits): the code counts,
/// the code-length code, the literal/length and distance code lengths, then the data.
pub fn inflate_dynamic(block_header: &[u8], idx: &mut usize, file_data: &mut Vec<u8>)
    requires
        block_header@.len() <= usize::MAX / 8,
        dynamic_block(msb_stream(block_header@), *old(idx) as int, old(file_data)@) is Some,
    ensures
        dynamic_block(msb_stream(block_header@), *old(idx) as int, old(file_data)@) == Some(
            (final(file_data)@, *final(idx) as int),
        ),
{
    reveal(dynamic_block);
    let ghost s = msb_stream(block_header@);
    let ghost start = *idx as int;
    proof {
        lemma_msb_bits_window(block_header@, start, 5);
        lemma_msb_bits_window(block_header@, start + 5, 5);
        lemma_msb_bits_window(block_header@, start + 10, 4);
        lemma_le_value_bound(s.subrange(start, start + 5));
        lemma_le_value_bound(s.subrange(start + 5, start + 10));
        lemma_le_value_bound(s.subrange(start + 10, start + 14));
        vstd::arithmetic::power2::lemma2_to64();
        lemma_code_length_order_ok();
    }
    let hlit = get_num_reverse(&get_n_bits_reverse(&block_header, *idx, 5));
    *idx += 5;
    let hdist = get_num_reverse(&get_n_bits_reverse(&block_header, *idx, 5));
    *idx += 5;
    let hclen = get_num_reverse(&get_n_bits_reverse(&block_header, *idx, 4));
    *idx += 4;
    let code_lengths = get_code_length_code_matrix(&block_header, idx, hclen);
    let alphabet: Vec<u16> = vec![16, 17, 18, 0, 8, 7, 9, 6, 10, 5, 11, 4, 12, 3, 13, 2, 14, 1, 15];
    assert(alphabet@ =~= CODE_LENGTH_ORDER@);
    let mat = convert_code_lengths_matrix(&code_lengths, alphabet);
    assert(rows_view(mat@) == code_length_table(code_lengths@));
    let n_lit = hlit as usize + 257;
    let lens = match try_read_lengths(&mat, &block_header, idx, n_lit + hdist as usize + 1) {
        Some(l) => l,
        None => {
            return;
        },
    };
    let (lit_lens, dist_lens) = split_lengths(&lens, n_lit);
    let lit_codes = table_of(&lit_lens);
    let dist_codes = table_of(&dist_lens);
    decode_dynamic(lit_codes, dist_codes, &block_header, idx, file_data);
}

/// Decodes a fixed-Huffman block from bit `*idx` (after its three header bits).
pub fn inflate_fixed(buffer: &[u8], idx: &mut usize, file_data: &mut Vec<u8>)
    requires
        buffer@.len() <= usize::MAX / 8,
        decode_fixed(msb_stream(buffer@), *old(idx) as int, old(file_data)@) is Some,
    ensures
        decode_fixed(msb_stream(buffer@), *old(idx) as int, old(file_data)@) == Some(
            (final(file_data)@, *final(idx) as int),
        ),
{
    decode_deflate(buffer, idx, file_data);
}

/// The whole buffer as a stream of bits, least significant bit of each byte first: the bit
/// order of a DEFLATE stream.
pub open spec fn lsb_stream(buf: Seq<u8>) -> Seq<bool> {
    Seq::new(8 * buf.len(), |i: int| lsb_bit(buf, i))
}

#[verifier::opaque]
/// The bytes the blocks from bit `idx` on add to `out`, up to the end of the block marked
/// final, and the bit index after it. `None` where the stream is malformed or ends too early.
pub open spec fn inflate_blocks(s: Seq<bool>, idx: int, out: Seq<u8>) -> Option<(Seq<u8>, int)>
    decreases s.len() - idx,
{
    if idx < 0 || idx + 3 > s.len() {
        None
    } else {
        let bfinal = s[idx];
        let btype = le_value(s.subrange(idx + 1, idx + 3));
        let block = if btype == 2 {
            dynamic_block(s, idx + 3, out)
        } else if btype == 1 {
            decode_fixed(s, idx + 3, out)
        } else {
            None
        };
        match block {
            None => None,
            Some((o, next)) => {
                if bfinal {
                    Some((o, next))
                } else if next <= idx || next > s.len() {
                    None
                } else {
                    inflate_blocks(s, next, o)
                }
            },
        }
    }
}

/// One step of `inflate_blocks`: the header bits, one block, then either the end or the rest.
pub proof fn lemma_inflate_blocks_step(s: Seq<bool>, idx: int, out: Seq<u8>)
    requires
        inflate_blocks(s, idx, out) is Some,
    ensures
        0 <= idx && idx + 3 <= s.len(),
        ({
            let btype = le_value(s.subrange(idx + 1, idx + 3));
            let block = if btype == 2 {
                dynamic_block(s, idx + 3, out)
            } else {
                decode_fixed(s, idx + 3, out)
            };
            &&& (btype == 1 || btype == 2)
            &&& block is Some
            &&& s[idx] ==> inflate_blocks(s, idx, out) == block
            &&& !s[idx] ==> idx < block.unwrap().1 <= s.len() && inflate_blocks(s, idx, out) == inflate_blocks(
                s,
                block.unwrap().1,
                block.unwrap().0,
            )
        }),
{
    reveal(inflate_blocks);
}

/// Swapping the nibbles, then the bit pairs, then neighbouring bits reverses the order of
/// the bits of a byte.
proof fn lemma_swaps_reverse(x: u8, a: u8, b: u8, r: u8)
    by (bit_vector)
    requires
        a == (x >> 4u8) | (x << 4u8),
        b == ((a & 0xCCu8) >> 2u8) | ((a & 0x33u8) << 2u8),
        r == ((b & 0xAAu8) >> 1u8) | ((b & 0x55u8) << 1u8),
    ensures
        forall|k: u8| k < 8 ==> #[trigger] ((r >> k) & 1u8) == ((x >> ((7 - k) as u8)) & 1u8),
{
}

/// Reverses the order of the bits of a byte.
fn reverse_byte_bits(x: u8) -> (r: u8)
    ensures
        forall|k: u8| k < 8 ==> #[trigger] ((r >> k) & 1u8) == ((x >> ((7 - k) as u8)) & 1u8),
{
    let a: u8 = (x >> 4u8) | (x << 4u8);
    let b: u8 = ((a & 0xCCu8) >> 2u8) | ((a & 0x33u8) << 2u8);
    let r: u8 = ((b & 0xAAu8) >> 1u8) | ((b & 0x55u8) << 1u8);
    proof {
        lemma_swaps_reverse(x, a, b, r);
    }
    r
}

/// Each byte with its bits reversed: reading the result most significant bit first reads the
/// given bytes least significant bit first, and reading it least significant bit first reads
/// them most significant bit first.
pub fn reverse_bits_of_bytes(buffer: &[u8]) -> (reversed: Vec<u8>)
    ensures
        reversed@.len() == buffer@.len(),
        msb_stream(reversed@) == lsb_stream(buffer@),
        lsb_stream(reversed@) == msb_stream(buffer@),
{
    let mut out: Vec<u8> = Vec::new();
    let mut i: usize = 0;
    while i < buffer.len()
        invariant
            i <= buffer@.len(),
            out@.len() == i,
            forall|j: int, k: u8| 0 <= j < i && k < 8 ==> #[trigger] ((out@[j] >> k) & 1u8) == ((buffer@[j] >> ((7
                - k) as u8)) & 1u8),
        decreases buffer@.len() - i,
    {
        let r = reverse_byte_bits(buffer[i]);
        out.push(r);
        i += 1;
    }
    assert forall|b: int| 0 <= b < 8 * buffer@.len() implies msb_stream(out@)[b] == lsb_stream(buffer@)[b] by {
        let k = (7 - b % 8) as u8;
        assert(((out@[b / 8] >> k) & 1u8) == ((buffer@[b / 8] >> ((7 - k) as u8)) & 1u8));
        assert((7 - k) as u8 == (b % 8) as u8);
    }
    assert(msb_stream(out@) =~= lsb_stream(buffer@));
    assert forall|b: int| 0 <= b < 8 * buffer@.len() implies lsb_stream(out@)[b] == msb_stream(buffer@)[b] by {
        let k = (7 - b % 8) as u8;
        assert(((out@[b / 8] >> k) & 1u8) == ((buffer@[b / 8] >> ((7 - k) as u8)) & 1u8));
        assert((7 - k) as u8 == (b % 8) as u8);
    }
    assert(lsb_stream(out@) =~= msb_stream(buffer@));
    out
}

/// Inflates a raw DEFLATE stream: decodes its blocks in turn until the final one.
pub fn inflate(deflate_stream: &[u8]) -> (file_data: Vec<u8>)
    requires
        deflate_stream@.len() <= usize::MAX / 8,
        inflate_blocks(lsb_stream(deflate_stream@), 0, Seq::empty()) is Some,
    ensures
        file_data@ == inflate_blocks(lsb_stream(deflate_stream@), 0, Seq::empty()).unwrap().0,
{
    let block_header = reverse_bits_of_bytes(deflate_stream);
    let ghost s = msb_stream(block_header@);
    let ghost goal = inflate_blocks(s, 0, Seq::empty());
    let mut bfinal: bool;
    let mut idx: usize = 0;
    let mut file_data: Vec<u8> = Vec::new();
    loop
        invariant_except_break
            block_header@.len() <= usize::MAX / 8,
            s == msb_stream(block_header@),
            goal is Some,
            inflate_blocks(s, idx as int, file_data@) == goal,
            idx <= s.len(),
        ensures
            goal.unwrap().0 == file_data@,
        decreases s.len() - idx,
    {
        proof {
            lemma_inflate_blocks_step(s, idx as int, file_data@);
            lemma_msb_bits_window(block_header@, idx as int, 1);
            lemma_msb_bits_window(block_header@, idx + 1, 2);
            lemma_le_value_bound(s.subrange(idx as int, idx + 1));
            lemma_le_value_bound(s.subrange(idx + 1, idx + 3));
            vstd::arithmetic::power2::lemma2_to64();
            assert(s.subrange(idx as int, idx + 1).drop_first() =~= Seq::<bool>::empty());
            assert(s.subrange(idx as int, idx + 1).first() == s[idx as int]);
        }
        bfinal = get_num_reverse(&get_n_bits_reverse(&block_header, idx, 1)) != 0;
        idx += 1;
        let btype = get_num_reverse(&get_n_bits_reverse(&block_header, idx, 2));
        idx += 2;
        if btype == 2 {
            inflate_dynamic(&block_header, &mut idx, &mut file_data);
        } else {
            inflate_fixed(&block_header, &mut idx, &mut file_data);
        }
        if bfinal {
            break;
        }
    }
    file_data
}

} // verus!
