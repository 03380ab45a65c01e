//! Whole DEFLATE streams made of one final fixed-Huffman block: the compressor over the
//! hash-chained window, the assembly of separately compressed pieces, and an LZ77 variant
//! whose chains live in an `FxHashMap`.
use vstd::prelude::*;
use crate::block::{
    Lz77Token, encode_tokens, tokens_end, lz77_parse, lz77_sound, fixed_block, zero_pad, pack_lsb,
    pack_bits, end_of_block, lemma_fixed_block_roundtrip, concat_bits, token_fits, token_sound, placed_tokens,
    concat_bytes, parts_sound, lemma_joined_blocks_roundtrip,
};
use crate::huffman_new::{lz77_compression_new, lz77_start, lz77_safe, new_token_ok, exact_lengths};
use crate::inflate::{inflate_blocks, lsb_stream};
use crate::encode::{convert_length, convert_dist, reverse_huffman};
use std::collections::LinkedList;
use fxhash::FxHashMap;

verus! {

/// Appends zero bits up to a whole number of bytes and packs the bits, least significant
/// bit first.
fn pad_and_pack(all_bits: &mut Vec<bool>) -> (out: Vec<u8>)
    ensures
        final(all_bits)@ == zero_pad(old(all_bits)@),
        out@ == pack_lsb(zero_pad(old(all_bits)@)),
{
    let ghost b0 = all_bits@;
    let additional_zeros = if all_bits.len() % 8 != 0 {
        8 - all_bits.len() % 8
    } else {
        0
    };
    let mut i: usize = 0;
    while i < additional_zeros
        invariant
            i <= additional_zeros,
            additional_zeros == ((8 - b0.len() % 8) % 8) as usize,
            all_bits@ =~= b0 + Seq::new(i as nat, |k: int| false),
        decreases additional_zeros - i,
    {
        all_bits.push(false);
        i += 1;
    }
    assert(all_bits@ =~= zero_pad(b0));
    pack_bits(all_bits)
}

/// Compresses `buffer` into a DEFLATE stream of one final fixed-Huffman block: the header,
/// the codes of the tokens of `lz77_compression_new`, the end-of-block code, and zero bits
/// up to a whole byte. On data of at least 2 bytes whose matches are all true
/// back-references, the stream inflates back to `buffer`; they always are on data of 2 to
/// 32768 bytes, none of them zero.
pub fn compress(buffer: Vec<u8>) -> (out: Vec<u8>)
    requires
        buffer.len() < i32::MAX,
    ensures
        exists|ts: Seq<Lz77Token>|
            {
                &&& #[trigger] lz77_parse(ts, seq![0u8] + buffer@, lz77_start(buffer@))
                &&& tokens_end(ts, lz77_start(buffer@)) == buffer.len() + 1
                &&& out@ == pack_lsb(zero_pad(fixed_block(ts)))
                &&& lz77_safe(buffer@) ==> lz77_sound(ts, seq![0u8] + buffer@, 1)
                &&& forall|i: int|
                    0 <= i < ts.len() ==> #[trigger] new_token_ok(seq![0u8] + buffer@, placed_tokens(ts, lz77_start(buffer@))[i])
                &&& exact_lengths(seq![0u8] + buffer@, placed_tokens(ts, lz77_start(buffer@)))
                &&& buffer.len() >= 2 && lz77_sound(ts, seq![0u8] + buffer@, 1) ==> inflate_blocks(
                    lsb_stream(out@),
                    0,
                    Seq::empty(),
                ) == Some((buffer@, fixed_block(ts).len() as int))
            },
        lz77_safe(buffer@) ==> inflate_blocks(lsb_stream(out@), 0, Seq::empty()) is Some
            && inflate_blocks(lsb_stream(out@), 0, Seq::empty()).unwrap().0 == buffer@,
{
    let ghost data = buffer@;
    let mut all_bits: Vec<bool> = Vec::new();
    // BFINAL
    all_bits.push(true);
    // BTYPE
    all_bits.push(true);
    all_bits.push(false);
    let ghost hdr = all_bits@;
    lz77_compression_new(buffer, &mut all_bits);
    let ghost ts = choose|ts: Seq<Lz77Token>|
        {
            &&& #[trigger] lz77_parse(ts, seq![0u8] + data, lz77_start(data))
            &&& tokens_end(ts, lz77_start(data)) == data.len() + 1
            &&& all_bits@ == hdr + encode_tokens(ts)
            &&& lz77_safe(data) ==> lz77_sound(ts, seq![0u8] + data, 1)
            &&& forall|i: int|
                0 <= i < ts.len() ==> #[trigger] new_token_ok(seq![0u8] + data, placed_tokens(ts, lz77_start(data))[i])
            &&& exact_lengths(seq![0u8] + data, placed_tokens(ts, lz77_start(data)))
        };
    let mut eob = vec![false, false, false, false, false, false, false];
    all_bits.append(&mut eob);
    assert(all_bits@ =~= fixed_block(ts));
    let out = pad_and_pack(&mut all_bits);
    proof {
        if data.len() >= 2 && lz77_sound(ts, seq![0u8] + data, 1) {
            let fb = fixed_block(ts);
            lemma_fixed_block_roundtrip(data, ts, Seq::new(((8 - fb.len() % 8) % 8) as nat, |i: int| false));
        }
    }
    out
}

/// The pieces that `compress_in_pieces` cuts data into: they make up the data in order, each
/// of 32768 bytes but the last, which has 1 to 32768.
pub open spec fn window_pieces(data: Seq<u8>, chunks: Seq<Seq<u8>>) -> bool {
    &&& concat_bytes(chunks) == data
    &&& forall|i: int| 0 <= i < chunks.len() - 1 ==> (#[trigger] chunks[i]).len() == 32768
    &&& chunks.len() > 0 ==> 1 <= chunks.last().len() <= 32768
}

/// What `lz77_compression_new` states of the tokens it writes for `chunk`.
pub open spec fn piece_parse(chunk: Seq<u8>, ts: Seq<Lz77Token>) -> bool {
    &&& lz77_parse(ts, seq![0u8] + chunk, lz77_start(chunk))
    &&& tokens_end(ts, lz77_start(chunk)) == chunk.len() + 1
    &&& lz77_safe(chunk) ==> lz77_sound(ts, seq![0u8] + chunk, 1)
    &&& forall|i: int|
        0 <= i < ts.len() ==> #[trigger] new_token_ok(seq![0u8] + chunk, placed_tokens(ts, lz77_start(chunk))[i])
    &&& exact_lengths(seq![0u8] + chunk, placed_tokens(ts, lz77_start(chunk)))
}

/// The token bits of each parse.
pub open spec fn token_parts(tss: Seq<Seq<Lz77Token>>) -> Seq<Seq<bool>> {
    Seq::new(tss.len(), |i: int| encode_tokens(tss[i]))
}

/// Compresses `buffer` in pieces of 32768 bytes (the last one shorter), each compressed on
/// its own by `lz77_compression_new`, and joins their tokens into one final fixed-Huffman
/// block. Where every piece has at least 2 bytes and its matches are true back-references,
/// the stream inflates back to `buffer`; they always are where no byte is zero and the last
/// piece is not a single byte.
pub fn compress_in_pieces(buffer: &Vec<u8>) -> (out: Vec<u8>)
    ensures
        exists|chunks: Seq<Seq<u8>>, tss: Seq<Seq<Lz77Token>>|
            {
                &&& #[trigger] window_pieces(buffer@, chunks)
                &&& tss.len() == chunks.len()
                &&& forall|i: int| 0 <= i < chunks.len() ==> #[trigger] piece_parse(chunks[i], tss[i])
                &&& out@ == pack_lsb(zero_pad(seq![true, true, false] + concat_bits(#[trigger] token_parts(tss)) + end_of_block()))
                &&& (forall|i: int|
                    0 <= i < chunks.len() ==> (#[trigger] chunks[i]).len() >= 2 && lz77_sound(
                        tss[i],
                        seq![0u8] + chunks[i],
                        1,
                    )) ==> inflate_blocks(lsb_stream(out@), 0, Seq::empty()) is Some && inflate_blocks(
                    lsb_stream(out@),
                    0,
                    Seq::empty(),
                ).unwrap().0 == buffer@
            },
        (forall|j: int| 0 <= j < buffer.len() ==> #[trigger] buffer@[j] != 0) && buffer.len() % 32768 != 1
            ==> inflate_blocks(lsb_stream(out@), 0, Seq::empty()) is Some && inflate_blocks(
            lsb_stream(out@),
            0,
            Seq::empty(),
        ).unwrap().0 == buffer@,
{
    let ghost data = buffer@;
    let ghost mut chunks: Seq<Seq<u8>> = Seq::empty();
    let ghost mut tss: Seq<Seq<Lz77Token>> = Seq::empty();
    let mut parts: Vec<Vec<bool>> = Vec::new();
    let mut start: usize = 0;
    let ghost all_nz = (forall|j: int| 0 <= j < data.len() ==> #[trigger] data[j] != 0) && data.len() % 32768 != 1;
    while start < buffer.len()
        invariant
            all_nz == ((forall|j: int| 0 <= j < data.len() ==> #[trigger] data[j] != 0) && data.len() % 32768 != 1),
            all_nz ==> forall|i: int|
                0 <= i < chunks.len() ==> (#[trigger] chunks[i]).len() >= 2 && lz77_sound(
                    tss[i],
                    seq![0u8] + chunks[i],
                    1,
                ),
            data == buffer@,
            start <= buffer.len(),
            concat_bytes(chunks) == data.subrange(0, start as int),
            start < buffer.len() ==> forall|i: int| 0 <= i < chunks.len() ==> (#[trigger] chunks[i]).len() == 32768,
            forall|i: int| 0 <= i < chunks.len() - 1 ==> (#[trigger] chunks[i]).len() == 32768,
            chunks.len() > 0 ==> 1 <= chunks.last().len() <= 32768,
            tss.len() == chunks.len(),
            parts@.len() == chunks.len(),
            forall|i: int| 0 <= i < chunks.len() ==> #[trigger] piece_parse(chunks[i], tss[i]),
            bit_views(parts@) == token_parts(tss),
            start < buffer.len() ==> start == 32768 * chunks.len(),
        decreases buffer.len() - start,
    {
        let end = if buffer.len() - start > 32768 {
            start + 32768
        } else {
            buffer.len()
        };
        let mut piece: Vec<u8> = Vec::new();
        let mut k: usize = start;
        while k < end
            invariant
                data == buffer@,
                start <= k <= end <= buffer.len(),
                piece@ == data.subrange(start as int, k as int),
            decreases end - k,
        {
            piece.push(buffer[k]);
            k += 1;
            assert(piece@ =~= data.subrange(start as int, k as int));
        }
        let ghost chunk = piece@;
        proof {
            if all_nz {
                if end < buffer.len() {
                    assert(chunk.len() == 32768);
                } else {
                    vstd::arithmetic::div_mod::lemma_mod_multiples_vanish(chunks.len() as int, 1, 32768);
                    assert(chunk.len() != 1);
                }
                assert forall|j: int| 0 <= j < chunk.len() implies #[trigger] chunk[j] != 0 by {
                    assert(chunk[j] == data[start + j]);
                }
                assert(lz77_safe(chunk));
            }
        }
        let mut bits: Vec<bool> = Vec::new();
        lz77_compression_new(piece, &mut bits);
        let ghost ts = choose|ts: Seq<Lz77Token>|
            {
                &&& #[trigger] lz77_parse(ts, seq![0u8] + chunk, lz77_start(chunk))
                &&& tokens_end(ts, lz77_start(chunk)) == chunk.len() + 1
                &&& bits@ == Seq::<bool>::empty() + encode_tokens(ts)
                &&& lz77_safe(chunk) ==> lz77_sound(ts, seq![0u8] + chunk, 1)
                &&& forall|i: int|
                    0 <= i < ts.len() ==> #[trigger] new_token_ok(seq![0u8] + chunk, placed_tokens(ts, lz77_start(chunk))[i])
                &&& exact_lengths(seq![0u8] + chunk, placed_tokens(ts, lz77_start(chunk)))
            };
        let ghost old_parts = parts@;
        parts.push(bits);
        proof {
            let cs0 = chunks;
            let ts0 = tss;
            assert(bits@ =~= encode_tokens(ts));
            chunks = chunks.push(chunk);
            tss = tss.push(ts);
            assert(chunks.drop_last() =~= cs0);
            assert(concat_bytes(chunks) =~= data.subrange(0, end as int));
            assert(bit_views(parts@) =~= token_parts(tss)) by {
                assert forall|i: int| 0 <= i < parts@.len() implies bit_views(parts@)[i] == token_parts(tss)[i] by {
                    if i < old_parts.len() {
                        assert(bit_views(old_parts)[i] == token_parts(ts0)[i]);
                    }
                }
            }
            assert forall|i: int| 0 <= i < chunks.len() implies #[trigger] piece_parse(chunks[i], tss[i]) by {
                if i < cs0.len() {
                    assert(chunks[i] == cs0[i] && tss[i] == ts0[i]);
                }
            }
            assert forall|i: int| 0 <= i < chunks.len() - 1 implies (#[trigger] chunks[i]).len() == 32768 by {
                assert(chunks[i] == cs0[i]);
            }
            if end < buffer.len() {
                assert forall|i: int| 0 <= i < chunks.len() implies (#[trigger] chunks[i]).len() == 32768 by {
                    if i < cs0.len() {
                        assert(chunks[i] == cs0[i]);
                    }
                }
            }
            if all_nz {
                assert forall|i: int| 0 <= i < chunks.len() implies (#[trigger] chunks[i]).len() >= 2 && lz77_sound(
                    tss[i],
                    seq![0u8] + chunks[i],
                    1,
                ) by {
                    if i < cs0.len() {
                        assert(chunks[i] == cs0[i] && tss[i] == ts0[i]);
                    }
                }
            }
        }
        start = end;
    }
    let out = join_fixed_blocks(parts);
    proof {
        assert(data.subrange(0, data.len() as int) =~= data);
        assert(window_pieces(data, chunks));
        let hdr = seq![true, true, false];
        let body = hdr + concat_bits(token_parts(tss)) + end_of_block();
        let tail = Seq::new(((8 - body.len() % 8) % 8) as nat, |i: int| false);
        assert(zero_pad(body) == body + tail);
        assert((body + tail).len() % 8 == 0);
        if forall|i: int|
            0 <= i < chunks.len() ==> (#[trigger] chunks[i]).len() >= 2 && lz77_sound(tss[i], seq![0u8] + chunks[i], 1) {
            assert(parts_sound(chunks, tss, token_parts(tss))) by {
                assert forall|i: int| 0 <= i < token_parts(tss).len() implies {
                    &&& #[trigger] token_parts(tss)[i] == encode_tokens(tss[i])
                    &&& lz77_parse(tss[i], seq![0u8] + chunks[i], 1)
                    &&& tokens_end(tss[i], 1) == chunks[i].len() + 1
                    &&& lz77_sound(tss[i], seq![0u8] + chunks[i], 1)
                } by {
                    assert(piece_parse(chunks[i], tss[i]));
                    assert(chunks[i].len() >= 2);
                    assert(lz77_start(chunks[i]) == 1);
                }
                assert(token_parts(tss).len() == tss.len());
            }
            assert(body + tail =~= hdr + concat_bits(token_parts(tss)) + end_of_block() + tail);
            lemma_joined_blocks_roundtrip(chunks, tss, token_parts(tss), tail);
        }
    }
    out
}

/// Three consecutive bytes.
pub type Trigram = (u8, u8, u8);

/// The bytes of `data`, each as a literal token.
pub open spec fn literal_tokens(data: Seq<u8>) -> Seq<Lz77Token>
    decreases data.len(),
{
    if data.len() == 0 {
        Seq::empty()
    } else {
        literal_tokens(data.drop_last()).push(Lz77Token::Literal(data.last()))
    }
}

/// Literal tokens are a sound parse of their data (behind a leading zero byte).
proof fn lemma_literal_tokens(data: Seq<u8>)
    ensures
        literal_tokens(data).len() == data.len(),
        lz77_parse(literal_tokens(data), seq![0u8] + data, 1),
        lz77_sound(literal_tokens(data), seq![0u8] + data, 1),
        tokens_end(literal_tokens(data), 1) == data.len() + 1,
    decreases data.len(),
{
    if data.len() > 0 {
        let d = data.drop_last();
        lemma_literal_tokens(d);
        let ts = literal_tokens(data);
        assert(ts.drop_last() =~= literal_tokens(d));
        let buf = seq![0u8] + data;
        let prev = seq![0u8] + d;
        assert forall|j: int| 0 <= j < prev.len() implies #[trigger] prev[j] == buf[j] by {}
        lemma_parse_extend(literal_tokens(d), prev, buf);
        assert(buf[data.len() as int] == data.last());
    }
}

/// A parse of a prefix, sound there, is a parse of and sound in the whole.
proof fn lemma_parse_extend(ts: Seq<Lz77Token>, a: Seq<u8>, b: Seq<u8>)
    requires
        lz77_parse(ts, a, 1),
        lz77_sound(ts, a, 1),
        a.len() <= b.len(),
        forall|j: int| 0 <= j < a.len() ==> #[trigger] a[j] == b[j],
    ensures
        lz77_parse(ts, b, 1),
        lz77_sound(ts, b, 1),
        ts.len() > 0 ==> tokens_end(ts, 1) <= a.len(),
    decreases ts.len(),
{
    if ts.len() > 0 {
        lemma_parse_extend(ts.drop_last(), a, b);
        let pos = tokens_end(ts.drop_last(), 1);
        match ts.last() {
            Lz77Token::Literal(_) => {
                assert(a[pos] == b[pos]);
            },
            Lz77Token::Match(l, d) => {
                assert forall|k: int| 0 <= k < l implies #[trigger] b[pos + k] == b[pos + k - d] by {
                    assert(a[pos + k] == a[pos + k - d]);
                    assert(a[pos + k] == b[pos + k]);
                    assert(a[pos + k - d] == b[pos + k - d]);
                }
            },
        }
    }
}

/// A final fixed-Huffman block of the bytes of `buffer` as literals: the header, their
/// codes, the end-of-block code and one more zero bit, then zero bits up to a whole byte.
/// It inflates back to `buffer`.
pub fn fixed_literal_block(buffer: &[u8]) -> (out: Vec<u8>)
    ensures
        out@ == pack_lsb(zero_pad(fixed_block(literal_tokens(buffer@)).push(false))),
        inflate_blocks(lsb_stream(out@), 0, Seq::empty()) is Some,
        inflate_blocks(lsb_stream(out@), 0, Seq::empty()).unwrap().0 == buffer@,
{
    let ghost data = buffer@;
    let mut all_bits: Vec<bool> = Vec::new();
    // BFINAL
    all_bits.push(true);
    // BTYPE
    all_bits.push(true);
    all_bits.push(false);
    let mut i: usize = 0;
    while i < buffer.len()
        invariant
            data == buffer@,
            i <= data.len(),
            all_bits@ == seq![true, true, false] + encode_tokens(literal_tokens(data.subrange(0, i as int))),
        decreases data.len() - i,
    {
        let mut bool_arr = crate::encode::reverse_huffman(buffer[i]);
        all_bits.append(&mut bool_arr);
        proof {
            let d = data.subrange(0, i + 1);
            assert(d.drop_last() =~= data.subrange(0, i as int));
            assert(literal_tokens(d).drop_last() =~= literal_tokens(data.subrange(0, i as int)));
        }
        i += 1;
    }
    assert(data.subrange(0, data.len() as int) =~= data);
    let mut eob = vec![false, false, false, false, false, false, false, false];
    all_bits.append(&mut eob);
    assert(all_bits@ =~= fixed_block(literal_tokens(data)).push(false));
    let out = pad_and_pack(&mut all_bits);
    proof {
        lemma_literal_tokens(data);
        let fb = fixed_block(literal_tokens(data));
        let tail = seq![false] + Seq::new(((8 - (fb.len() + 1) % 8) % 8) as nat, |i: int| false);
        assert(zero_pad(fb.push(false)) =~= fb + tail);
        lemma_fixed_block_roundtrip(data, literal_tokens(data), tail);
    }
    out
}

/// The ranges `[start, end)` that split `len` bytes into blocks of 32768, the last one
/// shorter where `len` is not a multiple of 32768.
pub fn block_ranges(len: usize) -> (ranges: Vec<(usize, usize)>)
    requires
        len <= usize::MAX - 32768,
    ensures
        ranges@.len() == (len + 32767) / 32768,
        forall|i: int|
            0 <= i < ranges@.len() ==> #[trigger] ranges@[i] == (
                (i * 32768) as usize,
                if i == ranges@.len() - 1 {
                    len
                } else {
                    ((i + 1) * 32768) as usize
                },
            ),
{
    let block_size: usize = 32768;
    let num_blocks = (len + block_size - 1) / block_size;
    let mut ranges: Vec<(usize, usize)> = Vec::new();
    let mut i: usize = 0;
    while i < num_blocks
        invariant
            block_size == 32768,
            num_blocks == (len + 32767) / 32768,
            i <= num_blocks,
            ranges@.len() == i,
            forall|k: int|
                0 <= k < i ==> #[trigger] ranges@[k] == (
                    (k * 32768) as usize,
                    if k == num_blocks - 1 {
                        len
                    } else {
                        ((k + 1) * 32768) as usize
                    },
                ),
        decreases num_blocks - i,
    {
        assert(i * 32768 <= len && (i < num_blocks - 1 ==> (i + 1) * 32768 <= len)) by (nonlinear_arith)
            requires
                i < num_blocks,
                num_blocks == (len + 32767) / 32768,
        ;
        let start = i * block_size;
        let end = if i == num_blocks - 1 {
            len
        } else {
            start + block_size
        };
        ranges.push((start, end));
        i += 1;
    }
    ranges
}

/// The views of a sequence of bit vectors.
pub open spec fn bit_views(parts: Seq<Vec<bool>>) -> Seq<Seq<bool>> {
    Seq::new(parts.len(), |i: int| parts[i]@)
}

/// One final fixed-Huffman block made of the token bits of separately compressed pieces,
/// one after the other: the header, the pieces, the end-of-block code, and zero bits up to
/// a whole byte, packed into bytes.
pub fn join_fixed_blocks(parts: Vec<Vec<bool>>) -> (out: Vec<u8>)
    ensures
        out@ == pack_lsb(zero_pad(seq![true, true, false] + concat_bits(bit_views(parts@)) + end_of_block())),
{
    let mut out: Vec<bool> = Vec::new();
    out.push(true);
    // BTYPE
    out.push(true);
    out.push(false);
    let mut i: usize = 0;
    while i < parts.len()
        invariant
            i <= parts@.len(),
            out@ == seq![true, true, false] + concat_bits(bit_views(parts@).subrange(0, i as int)),
        decreases parts@.len() - i,
    {
        let mut j: usize = 0;
        let ghost before = out@;
        while j < parts[i].len()
            invariant
                i < parts@.len(),
                j <= parts@[i as int]@.len(),
                out@ == before + parts@[i as int]@.subrange(0, j as int),
            decreases parts@[i as int]@.len() - j,
        {
            out.push(parts[i][j]);
            j += 1;
            assert(parts@[i as int]@.subrange(0, j as int) =~= parts@[i as int]@.subrange(0, j - 1).push(
                parts@[i as int]@[j - 1],
            ));
        }
        proof {
            let v = bit_views(parts@);
            assert(v.subrange(0, i + 1).drop_last() =~= v.subrange(0, i as int));
            assert(parts@[i as int]@.subrange(0, parts@[i as int]@.len() as int) =~= parts@[i as int]@);
        }
        i += 1;
    }
    assert(bit_views(parts@).subrange(0, parts@.len() as int) =~= bit_views(parts@));
    let mut eob = vec![false, false, false, false, false, false, false];
    out.append(&mut eob);
    pad_and_pack(&mut out)
}

/// The hash chains of `lz77_compression`: for each trigram, the positions where it was seen,
/// kept in an `FxHashMap` of linked lists.
#[verifier::external_body]
pub struct TrigramChains {
    map: FxHashMap<(u8, u8, u8), LinkedList<usize>>,
}

/// The positions listed for each trigram, front of the list first.
pub uninterp spec fn trigram_chains(c: TrigramChains) -> Map<(u8, u8, u8), Seq<usize>>;

/// The list of a trigram, empty where it has none.
pub open spec fn chain_of(m: Map<(u8, u8, u8), Seq<usize>>, key: (u8, u8, u8)) -> Seq<usize> {
    if m.dom().contains(key) {
        m[key]
    } else {
        Seq::empty()
    }
}

/// An empty map (`FxHashMap::default`).
#[verifier::external_body]
fn chains_new() -> (chains: TrigramChains)
    ensures
        trigram_chains(chains).dom().is_empty(),
{
    TrigramChains { map: FxHashMap::default() }
}

/// Puts `pos` at the front of the list of `key`, starting an empty list where there is none
/// (`entry(key).or_insert(..)` then `LinkedList::push_front`).
#[verifier::external_body]
fn chains_push_front(c: &mut TrigramChains, key: (u8, u8, u8), pos: usize)
    ensures
        trigram_chains(*final(c)) == trigram_chains(*old(c)).insert(
            key,
            seq![pos] + chain_of(trigram_chains(*old(c)), key),
        ),
{
    c.map.entry(key).or_insert(LinkedList::default()).push_front(pos);
}

/// Puts `pos` at the back of the list of `key`, starting an empty list where there is none
/// (`entry(key).or_insert(..)` then `LinkedList::push_back`).
#[verifier::external_body]
fn chains_push_back(c: &mut TrigramChains, key: (u8, u8, u8), pos: usize)
    ensures
        trigram_chains(*final(c)) == trigram_chains(*old(c)).insert(
            key,
            chain_of(trigram_chains(*old(c)), key).push(pos),
        ),
{
    c.map.entry(key).or_insert(LinkedList::default()).push_back(pos);
}

/// A copy of the list of `key`, front first, if there is one (`HashMap::get`, then the list
/// walked front to back).
#[verifier::external_body]
fn chains_get(c: &TrigramChains, key: (u8, u8, u8)) -> (r: Option<Vec<usize>>)
    ensures
        match r {
            Some(v) => trigram_chains(*c).dom().contains(key) && v@ == trigram_chains(*c)[key],
            None => !trigram_chains(*c).dom().contains(key),
        },
{
    match c.map.get(&key) {
        Some(list) => Some(list.iter().copied().collect()),
        None => None,
    }
}

/// Drops the last position of the list of `key`, if any (`get_mut(..).unwrap()` then
/// `LinkedList::pop_back`).
#[verifier::external_body]
fn chains_pop_back(c: &mut TrigramChains, key: (u8, u8, u8))
    requires
        trigram_chains(*old(c)).dom().contains(key),
    ensures
        trigram_chains(*final(c)) == trigram_chains(*old(c)).insert(
            key,
            if trigram_chains(*old(c))[key].len() > 0 {
                trigram_chains(*old(c))[key].drop_last()
            } else {
                trigram_chains(*old(c))[key]
            },
        ),
{
    c.map.get_mut(&key).unwrap().pop_back();
}

/// The short-distance candidates of `lz77_compression`, kept in an `FxHashMap` from trigram
/// to position.
#[verifier::external_body]
pub struct TrigramIndex {
    map: FxHashMap<(u8, u8, u8), usize>,
}

/// The position recorded for each trigram.
pub uninterp spec fn trigram_index(t: TrigramIndex) -> Map<(u8, u8, u8), usize>;

/// An empty map (`FxHashMap::default`).
#[verifier::external_body]
fn index_new() -> (index: TrigramIndex)
    ensures
        trigram_index(index).dom().is_empty(),
{
    TrigramIndex { map: FxHashMap::default() }
}

/// Records `pos` for `key`, replacing what was there (`HashMap::insert`).
#[verifier::external_body]
fn index_insert(t: &mut TrigramIndex, key: (u8, u8, u8), pos: usize)
    ensures
        trigram_index(*final(t)) == trigram_index(*old(t)).insert(key, pos),
{
    t.map.insert(key, pos);
}

/// The position recorded for `key`, if any (`HashMap::get`).
#[verifier::external_body]
fn index_get(t: &TrigramIndex, key: (u8, u8, u8)) -> (r: Option<usize>)
    ensures
        match r {
            Some(p) => trigram_index(*t).dom().contains(key) && p == trigram_index(*t)[key],
            None => !trigram_index(*t).dom().contains(key),
        },
{
    match t.map.get(&key) {
        Some(p) => Some(*p),
        None => None,
    }
}

/// The three bytes at `p`.
pub open spec fn trigram_at(buf: Seq<u8>, p: int) -> (u8, u8, u8) {
    (buf[p], buf[p + 1], buf[p + 2])
}

/// Every position listed for a trigram starts that trigram in `buf`.
pub open spec fn chains_ok(m: Map<(u8, u8, u8), Seq<usize>>, buf: Seq<u8>) -> bool {
    forall|key: (u8, u8, u8), i: int|
        #![trigger m[key][i]]
        m.dom().contains(key) && 0 <= i < m[key].len() ==> m[key][i] + 2 < buf.len() && trigram_at(
            buf,
            m[key][i] as int,
        ) == key
}

/// Pushing a position under its own trigram keeps the chains right.
proof fn lemma_chains_push(m: Map<(u8, u8, u8), Seq<usize>>, buf: Seq<u8>, key: (u8, u8, u8), pos: usize, front: bool)
    requires
        chains_ok(m, buf),
        pos + 2 < buf.len(),
        trigram_at(buf, pos as int) == key,
    ensures
        chains_ok(
            m.insert(key, if front { seq![pos] + chain_of(m, key) } else { chain_of(m, key).push(pos) }),
            buf,
        ),
{
    let l = if front { seq![pos] + chain_of(m, key) } else { chain_of(m, key).push(pos) };
    let m2 = m.insert(key, l);
    assert forall|k: (u8, u8, u8), i: int| m2.dom().contains(k) && 0 <= i < m2[k].len() implies m2[k][i] + 2
        < buf.len() && trigram_at(buf, m2[k][i] as int) == k by {
        if k == key {
            if front {
                if i > 0 {
                    assert(m2[k][i] == m[k][i - 1]);
                }
            } else {
                if i < chain_of(m, key).len() {
                    assert(m2[k][i] == m[k][i]);
                }
            }
        } else {
            assert(m2[k] == m[k]);
        }
    }
}

/// The short-distance candidates at `buffer_idx`, by trigram: the three bytes before it,
/// the two bytes before it with the first repeated, and a run of the byte before it; a later
/// one replaces an earlier one with the same bytes.
pub open spec fn temp_index_spec(buf: Seq<u8>, idx: int) -> Map<(u8, u8, u8), usize> {
    let m0 = Map::<(u8, u8, u8), usize>::empty();
    let m1 = if idx >= 3 {
        m0.insert((buf[idx - 3], buf[idx - 2], buf[idx - 1]), (idx - 3) as usize)
    } else {
        m0
    };
    let m2 = if idx >= 2 {
        m1.insert((buf[idx - 2], buf[idx - 1], buf[idx - 2]), (idx - 2) as usize)
    } else {
        m1
    };
    if idx >= 1 {
        m2.insert((buf[idx - 1], buf[idx - 1], buf[idx - 1]), (idx - 1) as usize)
    } else {
        m2
    }
}

/// The short-distance candidates at `buffer_idx`.
fn _get_temp_matches_buffer(buffer_idx: usize, buffer: &Vec<u8>) -> (temp_matches: TrigramIndex)
    requires
        buffer_idx <= buffer.len(),
        buffer.len() <= i32::MAX,
    ensures
        trigram_index(temp_matches) == temp_index_spec(buffer@, buffer_idx as int),
{
    let mut temp_matches = index_new();
    if buffer_idx as i32 - 3 >= 0 {
        index_insert(
            &mut temp_matches,
            (buffer[buffer_idx - 3], buffer[buffer_idx - 2], buffer[buffer_idx - 1]),
            buffer_idx - 3,
        );
    }
    if buffer_idx as i32 - 2 >= 0 {
        index_insert(
            &mut temp_matches,
            (buffer[buffer_idx - 2], buffer[buffer_idx - 1], buffer[buffer_idx - 2]),
            buffer_idx - 2,
        );
    }
    if buffer_idx > 0 {
        index_insert(
            &mut temp_matches,
            (buffer[buffer_idx - 1], buffer[buffer_idx - 1], buffer[buffer_idx - 1]),
            buffer_idx - 1,
        );
    }
    temp_matches
}

/// Whether `p` lies before `idx` and at most 32768 positions back.
pub open spec fn in_window(p: int, idx: int) -> bool {
    p < idx && idx - p <= 32768
}

/// Whether the three bytes at `idx` also start at a position within the window before it.
pub open spec fn seen_before(buf: Seq<u8>, idx: int) -> bool {
    exists|p: int| 0 <= p && #[trigger] in_window(p, idx) && trigram_at(buf, p) == trigram_at(buf, idx)
}

/// Whether the short-distance candidate recorded for the three bytes at `idx` agrees with
/// the byte two past `idx`: then `find_match_buffer` takes a match from it.
pub open spec fn short_hit(buf: Seq<u8>, idx: int) -> bool {
    let m = temp_index_spec(buf, idx);
    let k = trigram_at(buf, idx);
    &&& idx + 2 < buf.len()
    &&& m.dom().contains(k)
    &&& buf[m[k] as int] == buf[idx + 2]
}

/// A value held by a sequence is still held after something is put at its front or back.
proof fn lemma_contains_grow(l: Seq<usize>, x: usize, pos: usize)
    requires
        l.contains(x),
    ensures
        (seq![pos] + l).contains(x),
        l.push(pos).contains(x),
{
    let i = choose|i: int| 0 <= i < l.len() && l[i] == x;
    assert((seq![pos] + l)[i + 1] == x);
    assert(l.push(pos)[i] == x);
}

/// Every position that a list of `m0` holds, the list of the same trigram in `m1` holds too.
spec fn keeps(m0: Map<Trigram, Seq<usize>>, m1: Map<Trigram, Seq<usize>>) -> bool {
    forall|k: Trigram, p: usize| #[trigger] chain_of(m0, k).contains(p) ==> chain_of(m1, k).contains(p)
}

/// Putting a position at the front or the back of one list keeps what every list held.
proof fn lemma_chains_keep(m: Map<Trigram, Seq<usize>>, key: Trigram, pos: usize, front: bool)
    ensures
        keeps(m, m.insert(key, if front { seq![pos] + chain_of(m, key) } else { chain_of(m, key).push(pos) })),
{
    let m2 = m.insert(key, if front { seq![pos] + chain_of(m, key) } else { chain_of(m, key).push(pos) });
    assert forall|k: Trigram, p: usize| #[trigger] chain_of(m, k).contains(p) implies chain_of(m2, k).contains(p) by {
        if k == key {
            lemma_contains_grow(chain_of(m, key), p, pos);
        } else {
            assert(chain_of(m2, k) == chain_of(m, k));
        }
    }
}

/// A match found by `find_match_buffer`: 3 to 258 bytes from `idx`, within the data, reaching
/// back between 1 and `idx` bytes and at most 32768.
pub open spec fn chain_match_ok(buf: Seq<u8>, idx: int, d: int, l: int) -> bool {
    &&& 3 <= l <= 258
    &&& 1 <= d <= idx
    &&& d <= 32768
    &&& idx + l <= buf.len()
}

/// How many elements from `b` on equal those from `a` on, counted from the first and
/// stopping at the first that differs, at most `m`.
pub open spec fn run_len<A>(s: Seq<A>, a: int, b: int, m: int) -> int
    decreases m,
{
    if m <= 0 {
        0
    } else if s[a] != s[b] {
        0
    } else {
        1 + run_len(s, a + 1, b + 1, m - 1)
    }
}

/// A run counts at most `m` elements, each of them equal, and at least three where the
/// first three agree and `m` allows them.
pub proof fn lemma_run_len<A>(s: Seq<A>, a: int, b: int, m: int)
    ensures
        0 <= run_len(s, a, b, m),
        m >= 0 ==> run_len(s, a, b, m) <= m,
        forall|k: int| 0 <= k < run_len(s, a, b, m) ==> #[trigger] s[a + k] == s[b + k],
        m >= 3 && s[a] == s[b] && s[a + 1] == s[b + 1] && s[a + 2] == s[b + 2] ==> run_len(s, a, b, m) >= 3,
    decreases m,
{
    if m > 0 && s[a] == s[b] {
        lemma_run_len(s, a + 1, b + 1, m - 1);
        assert forall|k: int| 0 <= k < run_len(s, a, b, m) implies #[trigger] s[a + k] == s[b + k] by {
            if k > 0 {
                assert(s[(a + 1) + (k - 1)] == s[(b + 1) + (k - 1)]);
            }
        }
        if m >= 3 && s[a + 1] == s[b + 1] && s[a + 2] == s[b + 2] {
            lemma_run_len(s, a + 2, b + 2, m - 2);
            assert(run_len(s, a + 1, b + 1, m - 1) == 1 + run_len(s, a + 2, b + 2, m - 2));
            assert(run_len(s, a + 2, b + 2, m - 2) == 1 + run_len(s, a + 3, b + 3, m - 3));
            lemma_run_len(s, a + 3, b + 3, m - 3);
        }
    }
}

/// The longest a match at `idx` may be: 258 bytes, and not past the end of the data.
pub open spec fn match_cap(len: int, idx: int) -> int {
    if len - idx < 258 {
        len - idx
    } else {
        258
    }
}

/// The length that the search measures for the listed position `p` at `idx`: how many bytes
/// from `idx` on equal those from `p` on, at most `match_cap`.
pub open spec fn chain_run(buf: Seq<u8>, p: int, idx: int) -> int {
    run_len(buf, p, idx, match_cap(buf.len() as int, idx))
}

/// The position of the short-distance candidate recorded for the three bytes at `idx`.
pub open spec fn short_start(buf: Seq<u8>, idx: int) -> int {
    temp_index_spec(buf, idx)[trigram_at(buf, idx)] as int
}

/// The length the search gives the short-distance candidate: two bytes, and then as many
/// bytes from `idx + 2` on as equal those from the candidate on, up to `match_cap`.
pub open spec fn short_len(buf: Seq<u8>, idx: int) -> int {
    2 + run_len(buf, short_start(buf, idx), idx + 2, match_cap(buf.len() as int, idx) - 2)
}

/// The pair `(d, l)` is one the search can give at `idx`: the short-distance candidate with
/// its length, or a position within the window that starts the same three bytes, with the
/// length measured for it, all of whose bytes repeat.
pub open spec fn chosen_pair(buf: Seq<u8>, idx: int, d: int, l: int) -> bool {
    ||| short_hit(buf, idx) && d == idx - short_start(buf, idx) && l == short_len(buf, idx)
    ||| {
        &&& in_window(idx - d, idx)
        &&& trigram_at(buf, idx - d) == trigram_at(buf, idx)
        &&& l == chain_run(buf, idx - d, idx)
        &&& forall|k: int| 0 <= k < l ==> #[trigger] buf[idx - d + k] == buf[idx + k]
    }
}

/// Looks for the longest earlier occurrence of the bytes at `buffer_idx`: first among the
/// short-distance candidates, then among the positions listed for the next three bytes.
/// Positions met while comparing are added to the chains; listed positions more than 32768
/// bytes back are counted and as many are dropped from the back of the list. Returns
/// `(distance, length)`: the short-distance candidate's, or a listed position's that
/// measures longer; no listed position within the window measures longer than the result.
#[verifier::spinoff_prover]
fn find_match_buffer(buffer: &Vec<u8>, buffer_idx: &usize, true_matches: &mut TrigramChains) -> (found: Option<
    (usize, usize),
>)
    requires
        *buffer_idx <= buffer.len(),
        buffer.len() <= i32::MAX,
        chains_ok(trigram_chains(*old(true_matches)), buffer@),
    ensures
        chains_ok(trigram_chains(*final(true_matches)), buffer@),
        match found {
            None => true,
            Some((d, l)) => chain_match_ok(buffer@, *buffer_idx as int, d as int, l as int) && chosen_pair(
                buffer@,
                *buffer_idx as int,
                d as int,
                l as int,
            ),
        },
        *buffer_idx + 2 >= buffer.len() ==> found is None && *final(true_matches) == *old(true_matches),
        short_hit(buffer@, *buffer_idx as int) ==> found is Some && found.unwrap().1 >= short_len(
            buffer@,
            *buffer_idx as int,
        ),
        forall|p: usize|
            *buffer_idx + 2 < buffer.len() && #[trigger] chain_of(
                trigram_chains(*old(true_matches)),
                trigram_at(buffer@, *buffer_idx as int),
            ).contains(p) && in_window(p as int, *buffer_idx as int) ==> found is Some && found.unwrap().1
                >= chain_run(buffer@, p as int, *buffer_idx as int),
        found is Some ==> short_hit(buffer@, *buffer_idx as int) || seen_before(buffer@, *buffer_idx as int),
        *buffer_idx <= 32768 ==> keeps(trigram_chains(*old(true_matches)), trigram_chains(*final(true_matches))),
{
    let ghost buf = buffer@;
    let ghost idx = *buffer_idx as int;
    let ghost len = buffer.len() as int;
    let ghost cap = match_cap(len, idx);
    let mut max_len: usize = 0;
    let mut curr_dist: usize = 0;
    if *buffer_idx + 2 >= buffer.len() {
        let curr_option = if max_len != 0 {
            Some((curr_dist, max_len))
        } else {
            None
        };
        return curr_option;
    }
    let temp_matches = _get_temp_matches_buffer(*buffer_idx, buffer);
    let next_3_bytes = (buffer[*buffer_idx], buffer[*buffer_idx + 1], buffer[*buffer_idx + 2]);
    assert(next_3_bytes == trigram_at(buf, idx));
    let ghost m_old = trigram_chains(*true_matches);
    match index_get(&temp_matches, next_3_bytes) {
        Some(index) => {
            let mut found_idx = index;
            let start_match_idx = found_idx;
            let mut temp_buffer_idx = *buffer_idx + 2;
            assert(1 <= idx - start_match_idx <= 3);
            assert(start_match_idx == short_start(buf, idx));
            loop
                invariant_except_break
                    next_3_bytes == trigram_at(buf, idx),
                    temp_index_spec(buf, idx).dom().contains(next_3_bytes),
                    start_match_idx == short_start(buf, idx),
                    cap == match_cap(len, idx),
                    run_len(buf, start_match_idx as int, idx + 2, cap - 2) == (temp_buffer_idx - idx - 2) + run_len(
                        buf,
                        found_idx as int,
                        temp_buffer_idx as int,
                        cap - 2 - (temp_buffer_idx - idx - 2),
                    ),
                    (max_len != 0) == (temp_buffer_idx > idx + 2),
                    max_len != 0 ==> max_len == temp_buffer_idx - idx && curr_dist == idx - start_match_idx,
                    temp_buffer_idx > idx + 2 ==> short_hit(buf, idx),
                    keeps(m_old, trigram_chains(*true_matches)),
                    forall|p: usize| #[trigger]
                        chain_of(m_old, next_3_bytes).contains(p) ==> chain_of(
                            trigram_chains(*true_matches),
                            next_3_bytes,
                        ).contains(p),
                    buf == buffer@,
                    len == buffer.len(),
                    idx == *buffer_idx,
                    idx + 2 < len,
                    1 <= idx - start_match_idx <= 3,
                    idx + 2 <= temp_buffer_idx <= len,
                    temp_buffer_idx - idx <= 258,
                    found_idx == start_match_idx + (temp_buffer_idx - idx - 2),
                    chains_ok(trigram_chains(*true_matches), buf),
                    max_len == 0 || (max_len == temp_buffer_idx - idx && chain_match_ok(
                        buf,
                        idx,
                        curr_dist as int,
                        max_len as int,
                    )),
                ensures
                    chains_ok(trigram_chains(*true_matches), buf),
                    max_len == 0 || chain_match_ok(buf, idx, curr_dist as int, max_len as int),
                    (max_len != 0) == short_hit(buf, idx),
                    max_len != 0 ==> max_len == short_len(buf, idx) && curr_dist == idx - short_start(buf, idx),
                    keeps(m_old, trigram_chains(*true_matches)),
                    forall|p: usize| #[trigger]
                        chain_of(m_old, next_3_bytes).contains(p) ==> chain_of(
                            trigram_chains(*true_matches),
                            next_3_bytes,
                        ).contains(p),
                decreases len - temp_buffer_idx,
            {
                if temp_buffer_idx >= 3 {
                    let key = (
                        buffer[temp_buffer_idx - 3],
                        buffer[temp_buffer_idx - 2],
                        buffer[temp_buffer_idx - 1],
                    );
                    let ghost m1 = trigram_chains(*true_matches);
                    proof {
                        lemma_chains_push(m1, buf, key, (temp_buffer_idx - 3) as usize, false);
                    }
                    chains_push_back(true_matches, key, temp_buffer_idx - 3);
                    proof {
                        lemma_chains_keep(m1, key, (temp_buffer_idx - 3) as usize, false);
                        assert forall|p: usize| #[trigger]
                            chain_of(m_old, next_3_bytes).contains(p) implies chain_of(
                            trigram_chains(*true_matches),
                            next_3_bytes,
                        ).contains(p) by {
                            if key == next_3_bytes {
                                lemma_contains_grow(chain_of(m1, key), p, (temp_buffer_idx - 3) as usize);
                            }
                        }
                    }
                }
                if temp_buffer_idx < buffer.len() {
                    let next_el = buffer[found_idx];
                    if next_el != buffer[temp_buffer_idx] || (temp_buffer_idx - *buffer_idx >= 258) {
                        break;
                    }
                    temp_buffer_idx += 1;
                    found_idx += 1;
                } else {
                    break;
                }
                if temp_buffer_idx - *buffer_idx >= max_len {
                    curr_dist = *buffer_idx - start_match_idx;
                    max_len = temp_buffer_idx - *buffer_idx;
                }
            }
        },
        None => {},
    }
    assert((max_len != 0) == short_hit(buf, idx));
    let mut to_remove: usize = 0;
    let ghost m_snap = trigram_chains(*true_matches);
    assert(keeps(m_old, m_snap));
    assert(forall|p: usize| #[trigger]
        chain_of(m_old, next_3_bytes).contains(p) ==> chain_of(m_snap, next_3_bytes).contains(p));
    match chains_get(true_matches, next_3_bytes) {
        Some(indices) => {
            assert(indices@ == chain_of(m_snap, next_3_bytes));
            let mut max_temp_buffer_idx = *buffer_idx;
            let mut n: usize = 0;
            let mut stop = false;
            while n < indices.len()
                invariant_except_break
                    !stop,
                invariant
                    forall|j: int|
                        0 <= j < n && in_window(#[trigger] indices@[j] as int, idx) ==> max_len >= chain_run(
                            buf,
                            indices@[j] as int,
                            idx,
                        ),
                    max_len == 0 || chosen_pair(buf, idx, curr_dist as int, max_len as int),
                    max_len != 0 ==> short_hit(buf, idx) || seen_before(buf, idx),
                    short_hit(buf, idx) ==> max_len >= short_len(buf, idx) && max_len != 0,
                    cap == match_cap(len, idx),
                    buf == buffer@,
                    len == buffer.len(),
                    idx == *buffer_idx,
                    idx + 2 < len,
                    len <= i32::MAX,
                    n <= indices@.len(),
                    to_remove <= n,
                    idx <= 32768 ==> to_remove == 0,
                    keeps(m_old, trigram_chains(*true_matches)),
                    forall|j: int| 0 <= j < indices@.len() ==> #[trigger] indices@[j] + 2 < len && trigram_at(
                        buf,
                        indices@[j] as int,
                    ) == next_3_bytes,
                    next_3_bytes == trigram_at(buf, idx),
                    trigram_chains(*true_matches).dom().contains(next_3_bytes),
                    chains_ok(trigram_chains(*true_matches), buf),
                    idx <= max_temp_buffer_idx < len,
                    max_len == 0 || chain_match_ok(buf, idx, curr_dist as int, max_len as int),
                ensures
                    forall|j: int|
                        0 <= j < indices@.len() && in_window(#[trigger] indices@[j] as int, idx) ==> max_len
                            >= chain_run(buf, indices@[j] as int, idx),
                decreases indices@.len() - n,
            {
                let index = indices[n];
                n += 1;
                if *buffer_idx <= index {
                    continue;
                }
                if *buffer_idx - index > 32768 {
                    to_remove += 1;
                    continue;
                }
                if max_len == 258 {
                    proof {
                        assert forall|j: int|
                            0 <= j < indices@.len() && in_window(#[trigger] indices@[j] as int, idx) implies max_len
                            >= chain_run(buf, indices@[j] as int, idx) by {
                            lemma_run_len(buf, indices@[j] as int, idx, cap);
                        }
                    }
                    break;
                }
                let mut found_idx = index;
                let start_match_idx = found_idx;
                let mut temp_buffer_idx = *buffer_idx;
                let ghost ml0 = max_len;
                let ghost cd0 = curr_dist;
                loop
                    invariant_except_break
                        buf == buffer@,
                        len == buffer.len(),
                        idx == *buffer_idx,
                        idx + 2 < len,
                        cap == match_cap(len, idx),
                        start_match_idx < idx,
                        start_match_idx + 2 < len,
                        trigram_at(buf, start_match_idx as int) == trigram_at(buf, idx),
                        idx <= temp_buffer_idx <= len,
                        temp_buffer_idx - idx <= 258,
                        found_idx == start_match_idx + (temp_buffer_idx - idx),
                        run_len(buf, start_match_idx as int, idx, cap) == (temp_buffer_idx - idx) + run_len(
                            buf,
                            found_idx as int,
                            temp_buffer_idx as int,
                            cap - (temp_buffer_idx - idx),
                        ),
                        trigram_chains(*true_matches).dom().contains(next_3_bytes),
                        chains_ok(trigram_chains(*true_matches), buf),
                        idx <= max_temp_buffer_idx < len,
                        !stop,
                        max_len == ml0,
                        curr_dist == cd0,
                        ml0 <= 258,
                        ml0 == 0 || chosen_pair(buf, idx, cd0 as int, ml0 as int),
                        ml0 == 0 || chain_match_ok(buf, idx, cd0 as int, ml0 as int),
                        in_window(start_match_idx as int, idx),
                        keeps(m_old, trigram_chains(*true_matches)),
                    ensures
                        keeps(m_old, trigram_chains(*true_matches)),
                        !stop ==> max_len == ml0 && curr_dist == cd0 && temp_buffer_idx - idx == chain_run(
                            buf,
                            start_match_idx as int,
                            idx,
                        ),
                        stop ==> max_len == 258 && chosen_pair(buf, idx, curr_dist as int, max_len as int)
                            && chain_match_ok(buf, idx, curr_dist as int, max_len as int),
                        idx + 3 <= temp_buffer_idx <= len,
                        temp_buffer_idx - idx <= 258,
                        trigram_chains(*true_matches).dom().contains(next_3_bytes),
                        chains_ok(trigram_chains(*true_matches), buf),
                        idx <= max_temp_buffer_idx < len,
                    decreases len - temp_buffer_idx,
                {
                    if temp_buffer_idx >= buffer.len() {
                        break;
                    }
                    if buffer[found_idx] != buffer[temp_buffer_idx] {
                        break;
                    }
                    if temp_buffer_idx - *buffer_idx >= 258 {
                        proof {
                            lemma_run_len(buf, start_match_idx as int, idx, cap);
                        }
                        if temp_buffer_idx - *buffer_idx > max_len {
                            curr_dist = *buffer_idx - start_match_idx;
                            max_len = temp_buffer_idx - *buffer_idx;
                        }
                        stop = true;
                        break;
                    }
                    if temp_buffer_idx >= 2 {
                        if temp_buffer_idx > max_temp_buffer_idx {
                            let key = (
                                buffer[temp_buffer_idx - 2],
                                buffer[temp_buffer_idx - 1],
                                buffer[temp_buffer_idx],
                            );
                            proof {
                                lemma_chains_push(
                                    trigram_chains(*true_matches),
                                    buf,
                                    key,
                                    (temp_buffer_idx - 2) as usize,
                                    true,
                                );
                            }
                            let ghost m1 = trigram_chains(*true_matches);
                            chains_push_front(true_matches, key, temp_buffer_idx - 2);
                            proof {
                                lemma_chains_keep(m1, key, (temp_buffer_idx - 2) as usize, true);
                            }
                        }
                        if temp_buffer_idx > max_temp_buffer_idx {
                            max_temp_buffer_idx = temp_buffer_idx;
                        }
                    }
                    temp_buffer_idx += 1;
                    found_idx += 1;
                }
                if stop {
                    proof {
                        assert forall|j: int|
                            0 <= j < indices@.len() && in_window(#[trigger] indices@[j] as int, idx) implies max_len
                            >= chain_run(buf, indices@[j] as int, idx) by {
                            lemma_run_len(buf, indices@[j] as int, idx, cap);
                        }
                    }
                    break;
                }
                proof {
                    lemma_run_len(buf, start_match_idx as int, idx, cap);
                }
                if temp_buffer_idx - *buffer_idx > max_len {
                    curr_dist = *buffer_idx - start_match_idx;
                    max_len = temp_buffer_idx - *buffer_idx;
                    assert(in_window(start_match_idx as int, idx) && trigram_at(buf, start_match_idx as int)
                        == trigram_at(buf, idx));
                    assert(idx - curr_dist == start_match_idx);
                }
            }
            proof {
                assert forall|p: usize|
                    #[trigger] chain_of(m_old, next_3_bytes).contains(p) && in_window(p as int, idx) implies max_len
                    >= chain_run(buf, p as int, idx) by {
                    assert(chain_of(m_snap, next_3_bytes).contains(p));
                    let i = choose|i: int| 0 <= i < indices@.len() && indices@[i] == p;
                    assert(in_window(indices@[i] as int, idx));
                }
            }
        },
        None => {},
    }
    proof {
        assert forall|p: usize|
            #[trigger] chain_of(m_old, next_3_bytes).contains(p) && in_window(p as int, idx) implies max_len >= 3
            && max_len >= chain_run(buf, p as int, idx) by {
            lemma_run_len(buf, p as int, idx, cap);
        }
    }
    let mut r: usize = 0;
    while r < to_remove
        invariant
            buf == buffer@,
            idx == *buffer_idx,
            idx <= 32768 ==> to_remove == 0,
            idx <= 32768 ==> keeps(m_old, trigram_chains(*true_matches)),
            to_remove > 0 ==> trigram_chains(*true_matches).dom().contains(next_3_bytes),
            chains_ok(trigram_chains(*true_matches), buf),
        decreases to_remove - r,
    {
        let ghost m = trigram_chains(*true_matches);
        chains_pop_back(true_matches, next_3_bytes);
        proof {
            let m2 = trigram_chains(*true_matches);
            assert forall|k: Trigram, i: int| m2.dom().contains(k) && 0 <= i < m2[k].len() implies m2[k][i]
                + 2 < buf.len() && trigram_at(buf, m2[k][i] as int) == k by {
                if k == next_3_bytes && m[k].len() > 0 {
                    assert(m2[k][i] == m[k][i]);
                } else {
                    assert(m2[k] == m[k]);
                }
            }
        }
        r += 1;
    }
    let curr_option = if max_len != 0 {
        Some((curr_dist, max_len))
    } else {
        None
    };
    curr_option
}

/// The greedy choice at `tp`: where the three bytes at `s - 2` (`s` the position of a token
/// so far, at which the compressor listed the position `s - 2`) recur at `tp`'s position
/// within the window, the token there is a match at least as long as the run measured from
/// `s - 2`.
pub open spec fn greedy_at(buf: Seq<u8>, s: int, tp: (Lz77Token, int)) -> bool {
    let pos = tp.1;
    s >= 2 && pos + 2 < buf.len() && in_window(s - 2, pos) && trigram_at(buf, s - 2) == trigram_at(buf, pos)
        ==> match tp.0 {
        Lz77Token::Match(l, _) => l >= chain_run(buf, s - 2, pos),
        Lz77Token::Literal(_) => false,
    }
}

/// A token that `lz77_compression` may write where it stands: a literal only where the
/// short-distance candidate gives no match, and a match that the search can give there.
pub open spec fn fx_token_ok(buf: Seq<u8>, tp: (Lz77Token, int)) -> bool {
    match tp.0 {
        Lz77Token::Literal(_) => !short_hit(buf, tp.1),
        Lz77Token::Match(l, d) => d <= 32768 && chosen_pair(buf, tp.1, d as int, l as int),
    }
}

/// Compresses `buffer` with LZ77, the hash chains kept in an `FxHashMap`, and appends the
/// fixed-Huffman codes of its tokens to `compressed`: literals, and matches of 3 to 258
/// bytes reaching back 1 to 32768 bytes, each one the search gives at its position. Data of
/// fewer than three bytes is written as literals. For data of at most 32 KiB, where no listed
/// position falls out of the window and none is dropped, each token is a match at least as
/// long as the run from any position listed at an earlier token whose three bytes recur there.
#[verifier::spinoff_prover]
pub fn lz77_compression(buffer: Vec<u8>, compressed: &mut Vec<bool>)
    requires
        buffer.len() <= i32::MAX,
    ensures
        exists|ts: Seq<Lz77Token>|
            {
                &&& #[trigger] lz77_parse(ts, buffer@, 0)
                &&& tokens_end(ts, 0) == buffer.len()
                &&& final(compressed)@ == old(compressed)@ + encode_tokens(ts)
                &&& forall|i: int| 0 <= i < ts.len() ==> #[trigger] fx_token_ok(buffer@, placed_tokens(ts, 0)[i])
                &&& buffer.len() <= 32768 ==> forall|i: int, j: int|
                    0 <= j <= i < ts.len() ==> #[trigger] greedy_at(
                        buffer@,
                        placed_tokens(ts, 0)[j].1,
                        placed_tokens(ts, 0)[i],
                    )
            },
{
    let ghost c0 = compressed@;
    let ghost buf = buffer@;
    let mut true_matches = chains_new();
    let ghost mut ts: Seq<Lz77Token> = Seq::empty();
    assert(placed_tokens(ts, 0).len() == 0);
    if buffer.len() < 3 {
        let mut k: usize = 0;
        while k < buffer.len()
            invariant
                buf == buffer@,
                k <= buffer.len(),
                lz77_parse(ts, buf, 0),
                tokens_end(ts, 0) == k,
                compressed@ == c0 + encode_tokens(ts),
                buffer.len() < 3,
                placed_tokens(ts, 0).len() == ts.len(),
                forall|i: int| 0 <= i < ts.len() ==> #[trigger] fx_token_ok(buf, placed_tokens(ts, 0)[i]),
                forall|i: int| 0 <= i < ts.len() ==> (#[trigger] placed_tokens(ts, 0)[i]).1 == i,
                ts.len() == k,
            decreases buffer.len() - k,
        {
            let num = buffer[k];
            let mut bits = reverse_huffman(num);
            compressed.append(&mut bits);
            proof {
                crate::huffman_new::lemma_push_token(ts, Lz77Token::Literal(num), buf, 0);
                let tsb = ts;
                ts = ts.push(Lz77Token::Literal(num));
                assert(placed_tokens(ts, 0) == placed_tokens(tsb, 0).push((Lz77Token::Literal(num), tokens_end(tsb, 0))));
                assert forall|i: int| 0 <= i < ts.len() implies (#[trigger] placed_tokens(ts, 0)[i]).1 == i by {
                    if i < tsb.len() {
                        assert(placed_tokens(ts, 0)[i] == placed_tokens(tsb, 0)[i]);
                    }
                }
                assert(fx_token_ok(buf, placed_tokens(ts, 0)[ts.len() - 1]));
            }
            k += 1;
        }
        assert(lz77_parse(ts, buffer@, 0));
        assert forall|i: int, j: int| 0 <= j <= i < ts.len() implies #[trigger] greedy_at(
            buffer@,
            placed_tokens(ts, 0)[j].1,
            placed_tokens(ts, 0)[i],
        ) by {
            assert(placed_tokens(ts, 0)[i].1 == i);
        }
        return;
    }
    let mut buffer_idx: usize = 0;
    while buffer_idx < buffer.len()
        invariant
            buf == buffer@,
            buffer.len() <= i32::MAX,
            buffer_idx <= buffer.len(),
            lz77_parse(ts, buf, 0),
            tokens_end(ts, 0) == buffer_idx,
            compressed@ == c0 + encode_tokens(ts),
            chains_ok(trigram_chains(true_matches), buf),
            placed_tokens(ts, 0).len() == ts.len(),
            forall|i: int| 0 <= i < ts.len() ==> #[trigger] fx_token_ok(buf, placed_tokens(ts, 0)[i]),
            buf.len() <= 32768 ==> forall|i: int, j: int|
                0 <= j <= i < ts.len() ==> #[trigger] greedy_at(buf, placed_tokens(ts, 0)[j].1, placed_tokens(ts, 0)[i]),
            buf.len() <= 32768 ==> forall|j: int|
                0 <= j < ts.len() && #[trigger] placed_tokens(ts, 0)[j].1 >= 2 ==> chain_of(
                    trigram_chains(true_matches),
                    trigram_at(buf, placed_tokens(ts, 0)[j].1 - 2),
                ).contains((placed_tokens(ts, 0)[j].1 - 2) as usize),
        decreases buffer.len() - buffer_idx,
    {
        let ghost ts0 = ts;
        let ghost pos = buffer_idx as int;
        let ghost m0 = trigram_chains(true_matches);
        if buffer_idx >= 2 {
            let key = (buffer[buffer_idx - 2], buffer[buffer_idx - 1], buffer[buffer_idx]);
            proof {
                lemma_chains_push(trigram_chains(true_matches), buf, key, (buffer_idx - 2) as usize, true);
                lemma_chains_keep(m0, key, (buffer_idx - 2) as usize, true);
            }
            chains_push_front(&mut true_matches, key, buffer_idx - 2);
            proof {
                assert(key == trigram_at(buf, pos - 2));
                assert(chain_of(trigram_chains(true_matches), key)[0] == (buffer_idx - 2) as usize);
            }
        }
        let ghost m1 = trigram_chains(true_matches);
        let matches = find_match_buffer(&buffer, &buffer_idx, &mut true_matches);
        let ghost m2 = trigram_chains(true_matches);
        match matches {
            Some(current_match_val) => {
                let (distance, length) = current_match_val;
                let mut len_arr = convert_length(length);
                let mut dist_arr = convert_dist(distance);
                compressed.append(&mut len_arr);
                compressed.append(&mut dist_arr);
                proof {
                    let t = Lz77Token::Match(length, distance);
                    crate::huffman_new::lemma_push_token(ts, t, buf, 0);
                    assert(compressed@ =~= c0 + encode_tokens(ts) + crate::block::token_bits(t));
                    ts = ts.push(t);
                    assert(fx_token_ok(buf, placed_tokens(ts, 0)[ts.len() - 1]));
                }
                buffer_idx += length;
            },
            None => {
                let curr_byte = buffer[buffer_idx];
                let mut bool_arr = reverse_huffman(curr_byte);
                compressed.append(&mut bool_arr);
                proof {
                    let t = Lz77Token::Literal(curr_byte);
                    crate::huffman_new::lemma_push_token(ts, t, buf, 0);
                    ts = ts.push(t);
                    assert(fx_token_ok(buf, placed_tokens(ts, 0)[ts.len() - 1]));
                }
                buffer_idx += 1;
            },
        }
        proof {
            if buf.len() <= 32768 {
                let pl0 = placed_tokens(ts0, 0);
                let pl = placed_tokens(ts, 0);
                assert(pl == pl0.push((ts.last(), pos)));
                assert(ts.last() == (match matches {
                    Some((d, l)) => Lz77Token::Match(l, d),
                    None => Lz77Token::Literal(buf[pos]),
                }));
                assert forall|j: int| 0 <= j < ts.len() && #[trigger] pl[j].1 >= 2 implies chain_of(
                    m1,
                    trigram_at(buf, pl[j].1 - 2),
                ).contains((pl[j].1 - 2) as usize) by {
                    if j < ts0.len() {
                        assert(pl[j] == pl0[j]);
                        assert(chain_of(m0, trigram_at(buf, pl0[j].1 - 2)).contains((pl0[j].1 - 2) as usize));
                    } else {
                        assert(pl[j].1 == pos);
                        let key = trigram_at(buf, pos - 2);
                        assert(chain_of(m1, key)[0] == (pos - 2) as usize);
                    }
                }
                assert forall|j: int| 0 <= j < ts.len() && #[trigger] pl[j].1 >= 2 implies chain_of(
                    m2,
                    trigram_at(buf, pl[j].1 - 2),
                ).contains((pl[j].1 - 2) as usize) by {
                    assert(chain_of(m1, trigram_at(buf, pl[j].1 - 2)).contains((pl[j].1 - 2) as usize));
                }
                assert forall|i: int, j: int| 0 <= j <= i < ts.len() implies #[trigger] greedy_at(buf, pl[j].1, pl[i]) by {
                    if i < ts0.len() {
                        assert(pl[j] == pl0[j] && pl[i] == pl0[i]);
                        assert(greedy_at(buf, pl0[j].1, pl0[i]));
                    } else {
                        let s = pl[j].1;
                        if s >= 2 && pos + 2 < buf.len() && in_window(s - 2, pos) && trigram_at(buf, s - 2)
                            == trigram_at(buf, pos) {
                            assert(chain_of(m1, trigram_at(buf, s - 2)).contains((s - 2) as usize));
                            assert(chain_of(m1, trigram_at(buf, pos)).contains((s - 2) as usize));
                        }
                    }
                }
            }
        }
    }
    assert(lz77_parse(ts, buffer@, 0));
}

} // verus!
