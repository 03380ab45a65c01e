//! Fixed-Huffman blocks built from LZ77 tokens: their bit layout, how the bits are packed
//! into bytes, and the laws that the decoder reads back what the encoder wrote.
use vstd::prelude::*;
use crate::AsciiNum;
use crate::bits::lsb_bit;
use crate::encode::{fixed_code_bits, length_bits, distance_bits};
use crate::fixed::{parse_fixed_token, decode_fixed, lz77_copy, fixed_literal_code, fixed_distance,
    length_extra_bits, distance_extra_bits};
use crate::codec::{lemma_literal_roundtrip, lemma_length_distance_roundtrip, lemma_end_of_block_roundtrip};
use crate::inflate::{inflate_blocks, lsb_stream};
use crate::bits::{be_value, le_value, msb_stream};

verus! {

/// One step of an LZ77 parse: a literal byte, or a match of `length` bytes copied from
/// `distance` bytes back.
pub enum Lz77Token {
    Literal(u8),
    Match(usize, usize),
}

/// The bits of one token in a fixed-Huffman block: a literal's code, or a match's length
/// bits followed by its distance bits.
pub open spec fn token_bits(t: Lz77Token) -> Seq<bool> {
    match t {
        Lz77Token::Literal(b) => fixed_code_bits(b as int),
        Lz77Token::Match(l, d) => length_bits(l as int) + distance_bits(d as int),
    }
}

/// The symbol the decoder reads for a token.
pub open spec fn token_symbol(t: Lz77Token) -> AsciiNum {
    match t {
        Lz77Token::Literal(b) => AsciiNum::Ascii(b as u16),
        Lz77Token::Match(l, d) => AsciiNum::LenDist((l as u16, d as u16)),
    }
}

/// The bits of a sequence of tokens, one after the other.
pub open spec fn encode_tokens(ts: Seq<Lz77Token>) -> Seq<bool>
    decreases ts.len(),
{
    if ts.len() == 0 {
        Seq::empty()
    } else {
        encode_tokens(ts.drop_last()) + token_bits(ts.last())
    }
}

/// How many bytes a token stands for.
pub open spec fn token_span(t: Lz77Token) -> int {
    match t {
        Lz77Token::Literal(_) => 1,
        Lz77Token::Match(l, _) => l as int,
    }
}

/// The position after the bytes that the tokens stand for, when they start at `start`.
pub open spec fn tokens_end(ts: Seq<Lz77Token>, start: int) -> int
    decreases ts.len(),
{
    if ts.len() == 0 {
        start
    } else {
        tokens_end(ts.drop_last(), start) + token_span(ts.last())
    }
}

/// Token `t` may stand at position `pos` of `buf`: a literal is the byte there; a match is
/// 3 to 258 bytes long, lies within `buf`, and reaches back at least one byte and at most
/// to the start of `buf`.
pub open spec fn token_fits(t: Lz77Token, buf: Seq<u8>, pos: int) -> bool {
    match t {
        Lz77Token::Literal(b) => 0 <= pos < buf.len() && b == buf[pos],
        Lz77Token::Match(l, d) => 3 <= l <= 258 && 1 <= d <= pos && pos + l <= buf.len(),
    }
}

/// The tokens cover `buf` from `start` on, one after the other, each fitting where it stands.
pub open spec fn lz77_parse(ts: Seq<Lz77Token>, buf: Seq<u8>, start: int) -> bool
    decreases ts.len(),
{
    if ts.len() == 0 {
        true
    } else {
        lz77_parse(ts.drop_last(), buf, start) && token_fits(
            ts.last(),
            buf,
            tokens_end(ts.drop_last(), start),
        )
    }
}

/// Each token with the position where it stands, when the tokens start at `start`.
pub open spec fn placed_tokens(ts: Seq<Lz77Token>, start: int) -> Seq<(Lz77Token, int)>
    decreases ts.len(),
{
    if ts.len() == 0 {
        Seq::empty()
    } else {
        placed_tokens(ts.drop_last(), start).push((ts.last(), tokens_end(ts.drop_last(), start)))
    }
}

/// There is one placed token for each token.
pub proof fn lemma_placed_len(ts: Seq<Lz77Token>, start: int)
    ensures
        placed_tokens(ts, start).len() == ts.len(),
    decreases ts.len(),
{
    if ts.len() > 0 {
        lemma_placed_len(ts.drop_last(), start);
    }
}

/// A match at `pos` is a true back-reference into the data after position 0: it reaches back
/// no further than position 1 and at most 32768 bytes, and each byte it stands for equals
/// the byte `d` before it.
pub open spec fn token_sound(t: Lz77Token, buf: Seq<u8>, pos: int) -> bool {
    match t {
        Lz77Token::Literal(_) => true,
        Lz77Token::Match(l, d) => d < pos && d <= 32768 && forall|k: int|
            0 <= k < l ==> #[trigger] buf[pos + k] == buf[pos + k - d],
    }
}

/// Every token, at the position where it stands, is sound.
pub open spec fn lz77_sound(ts: Seq<Lz77Token>, buf: Seq<u8>, start: int) -> bool
    decreases ts.len(),
{
    if ts.len() == 0 {
        true
    } else {
        lz77_sound(ts.drop_last(), buf, start) && token_sound(
            ts.last(),
            buf,
            tokens_end(ts.drop_last(), start),
        )
    }
}

/// The seven zero bits of the end-of-block symbol.
pub open spec fn end_of_block() -> Seq<bool> {
    seq![false, false, false, false, false, false, false]
}

/// A final fixed-Huffman block holding the tokens: BFINAL set, BTYPE 01 (least significant
/// bit first), the tokens, then the end-of-block symbol.
pub open spec fn fixed_block(ts: Seq<Lz77Token>) -> Seq<bool> {
    seq![true, true, false] + encode_tokens(ts) + end_of_block()
}

/// The bits followed by as many zero bits as make their number a multiple of 8.
pub open spec fn zero_pad(bits: Seq<bool>) -> Seq<bool> {
    bits + Seq::new(((8 - bits.len() % 8) % 8) as nat, |i: int| false)
}

/// The byte made of the first `n` bits from `base`, bit `k` of the byte being `bits[base + k]`.
pub open spec fn byte_bits(bits: Seq<bool>, base: int, n: nat) -> u8
    decreases n,
{
    if n == 0 {
        0u8
    } else {
        byte_bits(bits, base, (n - 1) as nat) | (if bits[base + n - 1] {
            (1u8 << ((n - 1) as u8))
        } else {
            0u8
        })
    }
}

/// The bits packed into bytes, eight to a byte, least significant bit first.
pub open spec fn pack_lsb(bits: Seq<bool>) -> Seq<u8> {
    Seq::new(bits.len() / 8, |j: int| byte_bits(bits, 8 * j, 8))
}

proof fn lemma_or_bit(x: u8, m: u8, k: u8, b: bool)
    requires
        m < 8,
        k < 8,
    ensures
        ((x | (if b { 1u8 << m } else { 0u8 })) >> k) & 1u8 == (if k == m && b {
            1u8
        } else {
            (x >> k) & 1u8
        }),
{
    if b {
        assert(((x | (1u8 << m)) >> k) & 1u8 == (if k == m { 1u8 } else { (x >> k) & 1u8 })) by (bit_vector)
            requires
                m < 8,
                k < 8,
        ;
    } else {
        assert((x | 0u8) == x) by (bit_vector);
    }
}

/// Bit `k` of `byte_bits(bits, base, n)` is `bits[base + k]` below `n` and clear above.
proof fn lemma_byte_bits(bits: Seq<bool>, base: int, n: nat, k: u8)
    requires
        n <= 8,
        k < 8,
    ensures
        (((byte_bits(bits, base, n) >> k) & 1u8) == 1u8) == (k < n && bits[base + k]),
    decreases n,
{
    if n == 0 {
        assert((0u8 >> k) & 1u8 == 0u8) by (bit_vector);
    } else {
        lemma_byte_bits(bits, base, (n - 1) as nat, k);
        lemma_or_bit(byte_bits(bits, base, (n - 1) as nat), (n - 1) as u8, k, bits[base + n - 1]);
    }
}

/// Law: reading packed bytes least significant bit first gives back the bits.
pub proof fn lemma_pack_lsb(bits: Seq<bool>)
    requires
        bits.len() % 8 == 0,
    ensures
        lsb_stream(pack_lsb(bits)) == bits,
{
    let p = pack_lsb(bits);
    assert forall|i: int| 0 <= i < bits.len() implies #[trigger] lsb_stream(p)[i] == bits[i] by {
        let j = i / 8;
        let k = (i % 8) as u8;
        lemma_byte_bits(bits, 8 * j, 8, k);
        assert(8 * j + k == i);
    }
    assert(lsb_stream(p) =~= bits);
}

/// Packs bits into bytes, eight to a byte, the first bit in the least significant place.
pub(crate) fn pack_bits(bits: &Vec<bool>) -> (out: Vec<u8>)
    requires
        bits@.len() % 8 == 0,
    ensures
        out@ == pack_lsb(bits@),
{
    let mut out: Vec<u8> = Vec::new();
    let total = bits.len();
    let n = total / 8;
    let mut j: usize = 0;
    while j < n
        invariant
            total == bits@.len(),
            n == bits@.len() / 8,
            bits@.len() % 8 == 0,
            j <= n,
            out@ =~= pack_lsb(bits@).subrange(0, j as int),
        decreases n - j,
    {
        assert(8 * j + 8 <= bits@.len()) by (nonlinear_arith)
            requires
                j < n,
                n == bits@.len() / 8,
        ;
        let base: usize = 8 * j;
        let mut byte: u8 = 0;
        let mut i: usize = 0;
        while i < 8
            invariant
                j < n,
                n == bits@.len() / 8,
                base == 8 * j,
                base + 8 <= bits@.len(),
                i <= 8,
                byte == byte_bits(bits@, 8 * j, i as nat),
            decreases 8 - i,
        {
            if bits[base + i] {
                byte = byte | (1u8 << (i as u8));
            } else {
                assert(byte | 0u8 == byte) by (bit_vector);
            }
            i += 1;
        }
        out.push(byte);
        j += 1;
    }
    out
}

/// Parsing a symbol after a prefix is parsing it at the start of what follows the prefix.
proof fn lemma_parse_shift(p: Seq<bool>, q: Seq<bool>)
    ensures
        parse_fixed_token(p + q, p.len() as int) == (match parse_fixed_token(q, 0) {
            Some((t, n)) => Some((t, n + p.len() as int)),
            None => None,
        }),
{
    let s = p + q;
    let o = p.len() as int;
    assert forall|a: int, b: int| 0 <= a <= b <= q.len() implies #[trigger] s.subrange(o + a, o + b)
        =~= q.subrange(a, b) by {}
    if 7 <= q.len() {
        assert(s.subrange(o, o + 7) =~= q.subrange(0, 7));
    }
    if 8 <= q.len() {
        assert(s.subrange(o, o + 8) =~= q.subrange(0, 8));
    }
    if 9 <= q.len() {
        assert(s.subrange(o, o + 9) =~= q.subrange(0, 9));
    }
    assert(fixed_literal_code(s, o) == (match fixed_literal_code(q, 0) {
        Some((num, clen)) => Some((num, clen)),
        None => None,
    }));
    match fixed_literal_code(q, 0) {
        None => {},
        Some((num, clen)) => {
            if num >= 257 {
                let lb = length_extra_bits(num);
                let pp = clen;
                let qq = pp + lb;
                if qq + 5 <= q.len() {
                    assert(s.subrange(o + pp, o + pp + lb) =~= q.subrange(pp, pp + lb));
                    assert(s.subrange(o + qq, o + qq + 5) =~= q.subrange(qq, qq + 5));
                    let dn = be_value(q.subrange(qq, qq + 5)) as int;
                    let r = qq + 5;
                    let k = distance_extra_bits(dn);
                    if r + k <= q.len() {
                        assert(s.subrange(o + r, o + r + k) =~= q.subrange(r, r + k));
                        assert(fixed_distance(s, dn, o + r) == fixed_distance(q, dn, r));
                    }
                }
            }
        },
    }
}

/// A token's bits, wherever they stand, read back as the token.
proof fn lemma_token_decodes(t: Lz77Token, buf: Seq<u8>, pos: int, p: Seq<bool>, rest: Seq<bool>)
    requires
        token_fits(t, buf, pos),
        token_sound(t, buf, pos),
    ensures
        parse_fixed_token(p + (token_bits(t) + rest), p.len() as int) == Some(
            (token_symbol(t), (p.len() + token_bits(t).len()) as int),
        ),
{
    lemma_parse_shift(p, token_bits(t) + rest);
    match t {
        Lz77Token::Literal(b) => {
            lemma_literal_roundtrip(b, rest);
        },
        Lz77Token::Match(l, d) => {
            lemma_length_distance_roundtrip(l as int, d as int, rest);
            assert(length_bits(l as int) + distance_bits(d as int) + rest =~= token_bits(t) + rest);
        },
    }
}

/// A sound match copies bytes that are already there: copying it onto the data before it
/// (after any earlier output `out0`) gives the data up to its end.
proof fn lemma_copy_matches(out0: Seq<u8>, buf: Seq<u8>, pos: int, l: nat, d: nat)
    requires
        1 <= d < pos,
        pos + l <= buf.len(),
        forall|k: int| 0 <= k < l ==> #[trigger] buf[pos + k] == buf[pos + k - d],
    ensures
        lz77_copy(out0 + buf.subrange(1, pos), l, d) == out0 + buf.subrange(1, pos + l),
    decreases l,
{
    if l == 0 {
    } else {
        let s = out0 + buf.subrange(1, pos);
        assert(buf[pos + 0] == buf[pos + 0 - d]);
        assert(s[s.len() - d] == buf[pos - d]);
        assert(s.push(s[s.len() - d]) =~= out0 + buf.subrange(1, pos + 1));
        assert forall|k: int| 0 <= k < (l - 1) as nat implies #[trigger] buf[(pos + 1) + k] == buf[(pos
            + 1) + k - d] by {
            assert(buf[pos + (k + 1)] == buf[pos + (k + 1) - d]);
        }
        lemma_copy_matches(out0, buf, pos + 1, (l - 1) as nat, d);
    }
}

/// One step of `decode_fixed` over a symbol that is not the end of the block.
proof fn lemma_decode_step(s: Seq<bool>, idx: int, out: Seq<u8>, t: AsciiNum, next: int)
    requires
        parse_fixed_token(s, idx) == Some((t, next)),
        t matches AsciiNum::Ascii(v) ==> v < 256,
        t matches AsciiNum::LenDist((l, d)) ==> d <= out.len(),
    ensures
        decode_fixed(s, idx, out) == (match t {
            AsciiNum::Ascii(v) => decode_fixed(s, next, out.push(v as u8)),
            AsciiNum::LenDist((l, d)) => decode_fixed(s, next, lz77_copy(out, l as nat, d as nat)),
        }),
{
}

/// Law: the bits of a literal, or of a match of 3 to 258 bytes reaching back 1 to 32768
/// bytes, read back as that token wherever they stand in a byte buffer read most significant
/// bit first (as `get_num_buffer` reads it), whatever surrounds them.
pub proof fn lemma_token_reads_back_in_buffer(buffer: Seq<u8>, idx: int, t: Lz77Token)
    requires
        0 <= idx,
        idx + token_bits(t).len() <= msb_stream(buffer).len(),
        msb_stream(buffer).subrange(idx, idx + token_bits(t).len()) == token_bits(t),
        t matches Lz77Token::Match(l, d) ==> 3 <= l <= 258 && 1 <= d <= 32768,
    ensures
        parse_fixed_token(msb_stream(buffer), idx) == Some((token_symbol(t), idx + token_bits(t).len())),
{
    let s = msb_stream(buffer);
    let n = token_bits(t).len() as int;
    let p = s.subrange(0, idx);
    let rest = s.subrange(idx + n, s.len() as int);
    assert(s =~= p + (token_bits(t) + rest));
    lemma_parse_shift(p, token_bits(t) + rest);
    match t {
        Lz77Token::Literal(b) => {
            lemma_literal_roundtrip(b, rest);
        },
        Lz77Token::Match(l, d) => {
            assert(token_bits(t) + rest =~= length_bits(l as int) + distance_bits(d as int) + rest);
            lemma_length_distance_roundtrip(l as int, d as int, rest);
        },
    }
}

/// Decoding one token's bits, on the data before it, appends the bytes it stands for.
proof fn lemma_decode_one(out0: Seq<u8>, t: Lz77Token, buf: Seq<u8>, pos: int, p: Seq<bool>, tail: Seq<bool>)
    requires
        1 <= pos,
        token_fits(t, buf, pos),
        token_sound(t, buf, pos),
    ensures
        decode_fixed(p + (token_bits(t) + tail), p.len() as int, out0 + buf.subrange(1, pos)) == decode_fixed(
            p + (token_bits(t) + tail),
            (p.len() + token_bits(t).len()) as int,
            out0 + buf.subrange(1, pos + token_span(t)),
        ),
{
    let s = p + (token_bits(t) + tail);
    let q = p.len() as int;
    let out = out0 + buf.subrange(1, pos);
    lemma_token_decodes(t, buf, pos, p, tail);
    lemma_decode_step(s, q, out, token_symbol(t), q + token_bits(t).len());
    match t {
        Lz77Token::Literal(b) => {
            assert(out.push(b) =~= out0 + buf.subrange(1, pos + 1));
        },
        Lz77Token::Match(l, d) => {
            lemma_copy_matches(out0, buf, pos, l as nat, d as nat);
        },
    }
}

/// Where a parse from 1 ends: within `buf`, and not before 1.
proof fn lemma_tokens_end(ts: Seq<Lz77Token>, buf: Seq<u8>)
    requires
        lz77_parse(ts, buf, 1),
    ensures
        1 <= tokens_end(ts, 1),
        ts.len() > 0 ==> tokens_end(ts, 1) <= buf.len(),
    decreases ts.len(),
{
    if ts.len() > 0 {
        lemma_tokens_end(ts.drop_last(), buf);
    }
}

/// Decoding the bits of a sound parse, after any earlier output `out0`, reaches the end of
/// those bits with the data up to the end of the parse appended.
#[verifier::rlimit(40)]
proof fn lemma_decode_tokens(out0: Seq<u8>, ts: Seq<Lz77Token>, buf: Seq<u8>, pre: Seq<bool>, tail: Seq<bool>)
    requires
        buf.len() >= 1,
        lz77_parse(ts, buf, 1),
        lz77_sound(ts, buf, 1),
    ensures
        decode_fixed(pre + encode_tokens(ts) + tail, pre.len() as int, out0) == decode_fixed(
            pre + encode_tokens(ts) + tail,
            (pre.len() + encode_tokens(ts).len()) as int,
            out0 + buf.subrange(1, tokens_end(ts, 1)),
        ),
    decreases ts.len(),
{
    if ts.len() == 0 {
        assert(out0 + buf.subrange(1, 1) =~= out0);
        assert(pre + encode_tokens(ts) + tail =~= pre + tail);
    } else {
        let t = ts.last();
        let rs = ts.drop_last();
        let pos = tokens_end(rs, 1);
        let tb = token_bits(t);
        let er = encode_tokens(rs);
        assert(encode_tokens(ts) == er + tb);
        let s = pre + encode_tokens(ts) + tail;
        assert(s =~= pre + er + (tb + tail));
        assert(s =~= (pre + er) + (tb + tail));
        lemma_decode_tokens(out0, rs, buf, pre, tb + tail);
        lemma_tokens_end(rs, buf);
        lemma_decode_one(out0, t, buf, pos, pre + er, tail);
    }
}

/// A stream whose first block is final and fixed inflates to what that block decodes to.
proof fn lemma_inflate_one_fixed(s: Seq<bool>, o: Seq<u8>, n: int)
    requires
        s.len() >= 3,
        s[0],
        s[1],
        !s[2],
        decode_fixed(s, 3, Seq::empty()) == Some((o, n)),
    ensures
        inflate_blocks(s, 0, Seq::empty()) == Some((o, n)),
{
    assert(s.subrange(1, 3) =~= seq![true, false]);
    assert(seq![true, false].drop_first() =~= seq![false]);
    assert(seq![false].drop_first() =~= Seq::<bool>::empty());
    reveal_with_fuel(le_value, 3);
    assert(le_value(seq![true, false]) == 1);
    reveal(inflate_blocks);
}

/// Decoding reaches the end-of-block symbol and stops there.
proof fn lemma_decode_end(p: Seq<bool>, rest: Seq<bool>, out: Seq<u8>)
    ensures
        decode_fixed(p + (end_of_block() + rest), p.len() as int, out) == Some((out, p.len() + 7int)),
{
    lemma_parse_shift(p, end_of_block() + rest);
    lemma_end_of_block_roundtrip(rest);
}

/// Law: a final fixed-Huffman block made of a sound parse of `data` (behind a leading zero
/// byte), followed by any bits that fill the last byte or more, packed into bytes, inflates
/// back to `data`.
pub proof fn lemma_fixed_block_roundtrip(data: Seq<u8>, ts: Seq<Lz77Token>, tail: Seq<bool>)
    requires
        lz77_parse(ts, seq![0u8] + data, 1),
        tokens_end(ts, 1) == data.len() + 1,
        lz77_sound(ts, seq![0u8] + data, 1),
        (fixed_block(ts) + tail).len() % 8 == 0,
    ensures
        inflate_blocks(lsb_stream(pack_lsb(fixed_block(ts) + tail)), 0, Seq::empty()) == Some(
            (data, fixed_block(ts).len() as int),
        ),
{
    let buf = seq![0u8] + data;
    let bits = fixed_block(ts) + tail;
    lemma_pack_lsb(bits);
    let s = lsb_stream(pack_lsb(bits));
    assert(s == bits);
    let hdr = seq![true, true, false];
    let e = encode_tokens(ts);
    assert(bits == hdr + e + end_of_block() + tail);
    assert(s =~= hdr + e + (end_of_block() + tail));
    lemma_decode_tokens(Seq::empty(), ts, buf, hdr, end_of_block() + tail);
    assert(Seq::<u8>::empty() + buf.subrange(1, data.len() + 1 as int) =~= data);
    assert(s =~= (hdr + e) + (end_of_block() + tail));
    lemma_decode_end(hdr + e, tail, data);
    assert(s[0] && s[1] && !s[2]);
    lemma_inflate_one_fixed(s, data, fixed_block(ts).len() as int);
}

/// A parse of `data` from position 0 is a parse of `data` behind a leading zero byte from
/// position 1, ending one position further on.
pub proof fn lemma_parse_behind_zero(ts: Seq<Lz77Token>, data: Seq<u8>)
    requires
        lz77_parse(ts, data, 0),
    ensures
        lz77_parse(ts, seq![0u8] + data, 1),
        tokens_end(ts, 1) == tokens_end(ts, 0) + 1,
    decreases ts.len(),
{
    if ts.len() > 0 {
        lemma_parse_behind_zero(ts.drop_last(), data);
        let pos = tokens_end(ts.drop_last(), 0);
        match ts.last() {
            Lz77Token::Literal(b) => {
                assert((seq![0u8] + data)[pos + 1] == data[pos]);
            },
            Lz77Token::Match(_, _) => {},
        }
    }
}

/// Bit sequences one after the other.
pub open spec fn concat_bits(parts: Seq<Seq<bool>>) -> Seq<bool>
    decreases parts.len(),
{
    if parts.len() == 0 {
        Seq::empty()
    } else {
        concat_bits(parts.drop_last()) + parts.last()
    }
}

/// Byte sequences one after the other.
pub open spec fn concat_bytes(chunks: Seq<Seq<u8>>) -> Seq<u8>
    decreases chunks.len(),
{
    if chunks.len() == 0 {
        Seq::empty()
    } else {
        concat_bytes(chunks.drop_last()) + chunks.last()
    }
}

/// Each part holds the tokens of a sound parse of its chunk (behind a leading zero byte).
pub open spec fn parts_sound(chunks: Seq<Seq<u8>>, tss: Seq<Seq<Lz77Token>>, parts: Seq<Seq<bool>>) -> bool {
    &&& chunks.len() == tss.len()
    &&& tss.len() == parts.len()
    &&& forall|i: int|
        0 <= i < parts.len() ==> {
            &&& #[trigger] parts[i] == encode_tokens(tss[i])
            &&& lz77_parse(tss[i], seq![0u8] + chunks[i], 1)
            &&& tokens_end(tss[i], 1) == chunks[i].len() + 1
            &&& lz77_sound(tss[i], seq![0u8] + chunks[i], 1)
        }
}

/// Decoding the parts one after the other appends their chunks one after the other.
proof fn lemma_decode_parts(chunks: Seq<Seq<u8>>, tss: Seq<Seq<Lz77Token>>, parts: Seq<Seq<bool>>, rest: Seq<bool>)
    requires
        parts_sound(chunks, tss, parts),
    ensures
        decode_fixed(seq![true, true, false] + concat_bits(parts) + rest, 3, Seq::empty()) == decode_fixed(
            seq![true, true, false] + concat_bits(parts) + rest,
            3 + concat_bits(parts).len() as int,
            concat_bytes(chunks),
        ),
    decreases parts.len(),
{
    let hdr = seq![true, true, false];
    if parts.len() > 0 {
        let n = parts.len() - 1;
        let ps = parts.drop_last();
        let cs = chunks.drop_last();
        let ts = tss.drop_last();
        assert forall|i: int| 0 <= i < ps.len() implies {
            &&& #[trigger] ps[i] == encode_tokens(ts[i])
            &&& lz77_parse(ts[i], seq![0u8] + cs[i], 1)
            &&& tokens_end(ts[i], 1) == cs[i].len() + 1
            &&& lz77_sound(ts[i], seq![0u8] + cs[i], 1)
        } by {
            assert(parts[i] == encode_tokens(tss[i]));
        }
        let p = parts[n];
        assert(parts[n] == encode_tokens(tss[n]));
        let s = hdr + concat_bits(parts) + rest;
        assert(s =~= hdr + concat_bits(ps) + (p + rest));
        lemma_decode_parts(cs, ts, ps, p + rest);
        let buf = seq![0u8] + chunks[n];
        assert(s =~= (hdr + concat_bits(ps)) + encode_tokens(tss[n]) + rest);
        lemma_decode_tokens(concat_bytes(cs), tss[n], buf, hdr + concat_bits(ps), rest);
        assert(buf.subrange(1, chunks[n].len() + 1 as int) =~= chunks[n]);
    } else {
        assert(concat_bits(parts) =~= Seq::<bool>::empty());
        assert(concat_bytes(chunks) =~= Seq::<u8>::empty());
    }
}

/// Law: a final fixed-Huffman block holding, one after the other, the tokens of sound parses
/// of several chunks (each behind its own leading zero byte), followed by any bits that fill
/// the last byte or more, inflates to the chunks one after the other.
pub proof fn lemma_joined_blocks_roundtrip(
    chunks: Seq<Seq<u8>>,
    tss: Seq<Seq<Lz77Token>>,
    parts: Seq<Seq<bool>>,
    tail: Seq<bool>,
)
    requires
        parts_sound(chunks, tss, parts),
        (seq![true, true, false] + concat_bits(parts) + end_of_block() + tail).len() % 8 == 0,
    ensures
        inflate_blocks(
            lsb_stream(pack_lsb(seq![true, true, false] + concat_bits(parts) + end_of_block() + tail)),
            0,
            Seq::empty(),
        ) == Some((concat_bytes(chunks), 3 + concat_bits(parts).len() + 7int)),
{
    let hdr = seq![true, true, false];
    let bits = hdr + concat_bits(parts) + end_of_block() + tail;
    lemma_pack_lsb(bits);
    let s = lsb_stream(pack_lsb(bits));
    assert(s == bits);
    assert(s =~= hdr + concat_bits(parts) + (end_of_block() + tail));
    lemma_decode_parts(chunks, tss, parts, end_of_block() + tail);
    assert(s =~= (hdr + concat_bits(parts)) + (end_of_block() + tail));
    lemma_decode_end(hdr + concat_bits(parts), tail, concat_bytes(chunks));
    assert(s[0] && s[1] && !s[2]);
    lemma_inflate_one_fixed(s, concat_bytes(chunks), 3 + concat_bits(parts).len() + 7int);
}

} // verus!
