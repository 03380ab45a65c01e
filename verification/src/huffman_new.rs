//! An LZ77 compressor that finds matches through hash chains kept in fixed-size tables over
//! a 32 KiB window, and writes each token with the fixed Huffman code.
use vstd::prelude::*;
use crate::block::{
    Lz77Token, token_bits, encode_tokens, tokens_end, token_fits, token_sound, lz77_parse, lz77_sound, placed_tokens,
};
use crate::encode::{convert_length, convert_dist, reverse_huffman};
use crate::huffman::{chain_run, lemma_run_len, match_cap, run_len};

verus! {

/// The longest match DEFLATE can express.
pub const MAX_MATCH_LEN: usize = 258;

/// The size of the window that matches are looked for in.
pub const LZ_DICT_SIZE: usize = 32_768;

/// The window with room for one match past its end.
pub const LZ_DICT_FULL_SIZE: usize = LZ_DICT_SIZE + MAX_MATCH_LEN - 1 + 1;

/// Positions are taken modulo the window size through this mask.
const LZ_DICT_SIZE_MASK: usize = 32_767;

/// The rolling hash multiplies by this base ...
const HASH_BASE: u32 = 4;

/// ... and keeps its value below this modulus.
const HASH_MOD: u32 = 4096;

/// The tables of the match finder: the window's bytes, and hash chains of window positions.
#[derive(Debug)]
pub struct HashBuffers {
    /// The bytes of the window, by position modulo the window size.
    pub dict: [u8; LZ_DICT_FULL_SIZE],
    /// For each position (modulo the window size), the next older position in its chain.
    pub next: [usize; LZ_DICT_SIZE],
    /// For each hash value, the newest position whose three bytes have that hash.
    pub hash: [usize; LZ_DICT_SIZE],
}

impl HashBuffers {
    /// Every byte and every chain entry is zero: the tables hold nothing.
    pub open spec fn is_cleared(&self) -> bool {
        &&& forall|i: int| 0 <= i < LZ_DICT_FULL_SIZE ==> #[trigger] self.dict@[i] == 0
        &&& forall|i: int| 0 <= i < LZ_DICT_SIZE ==> #[trigger] self.next@[i] == 0
        &&& forall|i: int| 0 <= i < LZ_DICT_SIZE ==> #[trigger] self.hash@[i] == 0
    }

    /// Clears the tables.
    #[inline]
    pub fn reset(&mut self)
        ensures
            final(self).is_cleared(),
    {
        *self = HashBuffers::default();
    }
}

impl Default for HashBuffers {
    fn default() -> (tables: HashBuffers)
        ensures
            tables.is_cleared(),
    {
        HashBuffers { dict: [0; LZ_DICT_FULL_SIZE], next: [0; LZ_DICT_SIZE], hash: [0; LZ_DICT_SIZE] }
    }
}

/// The hash of a window of bytes: the bytes read as digits in base 4, modulo 4096.
spec fn window_hash(w: Seq<u8>) -> int
    decreases w.len(),
{
    if w.len() == 0 {
        0
    } else {
        (window_hash(w.drop_last()) * 4 + w.last()) % 4096
    }
}

/// A hash of the last (up to) three bytes added.
struct RollingHash {
    hash: u32,
    chars: [u8; 3],
    length: usize,
}

impl RollingHash {
    /// The bytes the hash is over, oldest first.
    spec fn window(&self) -> Seq<u8> {
        self.chars@.subrange(0, self.length as int)
    }

    /// At most three bytes are kept, and the hash is the hash of exactly those.
    spec fn wf(&self) -> bool {
        &&& self.length <= 3
        &&& self.hash < 4096
        &&& self.hash == window_hash(self.window())
    }

    fn new() -> (rh: Self)
        ensures
            rh.wf(),
            rh.window() == Seq::<u8>::empty(),
    {
        let rh = RollingHash { hash: 0, chars: [0; 3], length: 0 };
        assert(rh.window() =~= Seq::<u8>::empty());
        rh
    }

    /// Adds a byte, dropping the oldest one when three are kept.
    fn add_char(&mut self, ch: u8)
        requires
            old(self).wf(),
        ensures
            final(self).wf(),
            final(self).window() == (if old(self).length == 3 {
                old(self).window().drop_first()
            } else {
                old(self).window()
            }).push(ch),
    {
        if self.length == 3 {
            self.remove_char();
        }
        let ghost w = self.window();
        self.chars[self.length] = ch;
        self.length += 1;
        self.hash = (self.hash * HASH_BASE + ch as u32) % HASH_MOD;
        assert(self.window() =~= w.push(ch));
        assert(self.window().drop_last() =~= w);
    }

    /// Drops the oldest of the three bytes kept.
    fn remove_char(&mut self)
        requires
            old(self).wf(),
            old(self).length == 3,
        ensures
            final(self).wf(),
            final(self).length == 2,
            final(self).window() == old(self).window().drop_first(),
    {
        let ghost w = self.window();
        let c0 = self.chars[0] as u32;
        assert(c0 * (HASH_BASE * HASH_BASE) == c0 * 16 && c0 * 16 <= 4080) by (nonlinear_arith)
            requires
                c0 <= 255,
                HASH_BASE == 4,
        ;
        let first_char_val = (c0 * (HASH_BASE * HASH_BASE)) % HASH_MOD;
        self.hash = (self.hash + HASH_MOD - first_char_val) % HASH_MOD;
        self.chars = [self.chars[1], self.chars[2], self.chars[0]];
        self.length -= 1;
        proof {
            let c0 = w[0] as int;
            let c1 = w[1] as int;
            let c2 = w[2] as int;
            assert(w.drop_last().drop_last().drop_last() =~= Seq::<u8>::empty());
            assert(window_hash(w.drop_last().drop_last().drop_last()) == 0);
            assert(w.drop_last().drop_last().last() == w[0]);
            assert(w.drop_last().last() == w[1]);
            assert(window_hash(w.drop_last().drop_last()) == c0 % 4096);
            assert(window_hash(w.drop_last()) == (c0 * 4 + c1) % 4096);
            assert(window_hash(w) == (c0 * 16 + c1 * 4 + c2) % 4096);
            let v = self.window();
            assert(v =~= w.drop_first());
            assert(v.drop_last().drop_last() =~= Seq::<u8>::empty());
            assert(window_hash(v.drop_last().drop_last()) == 0);
            assert(v.drop_last().last() == w[1]);
            assert(v.last() == w[2]);
            assert(window_hash(v.drop_last()) == c1 % 4096);
            assert(window_hash(v) == (c1 * 4 + c2) % 4096);
        }
    }

    /// Adds three bytes in turn: afterwards the hash is over exactly those three.
    fn add_trigram(&mut self, tuple: (u8, u8, u8))
        requires
            old(self).wf(),
        ensures
            final(self).wf(),
            final(self).window() == seq![tuple.0, tuple.1, tuple.2],
    {
        self.add_char(tuple.0);
        self.add_char(tuple.1);
        self.add_char(tuple.2);
        assert(self.window() =~= seq![tuple.0, tuple.1, tuple.2]);
    }
}

/// Masking a position keeps it below the window size and never raises it.
proof fn lemma_mask(x: usize)
    ensures
        x & LZ_DICT_SIZE_MASK <= x,
        x & LZ_DICT_SIZE_MASK < LZ_DICT_SIZE,
        x < LZ_DICT_SIZE ==> x & LZ_DICT_SIZE_MASK == x,
        x == LZ_DICT_SIZE ==> x & LZ_DICT_SIZE_MASK == 0,
{
    assert(x & 32767usize <= x) by (bit_vector);
    assert(x & 32767usize < 32768usize) by (bit_vector);
    assert(x < 32768usize ==> x & 32767usize == x) by (bit_vector);
    assert(x == 32768usize ==> x & 32767usize == 0) by (bit_vector);
}

/// A chain entry: a window position whose three bytes lie within the data, starting at most
/// 255 bytes after `idx`.
spec fn link_ok(v: usize, len: int, idx: int) -> bool {
    &&& v < LZ_DICT_SIZE
    &&& v + 2 < len
    &&& v <= idx + 255
}

/// Every hash head and chain link is a good entry.
spec fn links_ok(tm: HashBuffers, len: int, idx: int) -> bool {
    &&& forall|j: int| 0 <= j < LZ_DICT_SIZE ==> link_ok(#[trigger] tm.hash@[j], len, idx)
    &&& forall|j: int| 0 <= j < LZ_DICT_SIZE ==> link_ok(#[trigger] tm.next@[j], len, idx)
}

/// No hash head is set.
spec fn hash_cleared(tm: HashBuffers) -> bool {
    forall|j: int| 0 <= j < LZ_DICT_SIZE ==> #[trigger] tm.hash@[j] == 0
}

/// The data fits in the window with one byte to spare, begins with a zero byte and holds no
/// other.
spec fn safe_buf(buf: Seq<u8>) -> bool {
    &&& 1 <= buf.len() <= LZ_DICT_SIZE + 1
    &&& buf[0] == 0
    &&& forall|j: int| 1 <= j < buf.len() ==> #[trigger] buf[j] != 0
}

/// For safe data, each window byte is either unset (zero) or the data's byte at its position,
/// or at its position one window further on.
spec fn window_ok(tm: HashBuffers, buf: Seq<u8>) -> bool {
    safe_buf(buf) ==> forall|j: int|
        0 <= j < LZ_DICT_SIZE ==> (#[trigger] tm.dict@[j] == 0 || (j < buf.len() && tm.dict@[j] == buf[j]) || (j
            + LZ_DICT_SIZE < buf.len() && tm.dict@[j] == buf[j + LZ_DICT_SIZE]))
}

/// A match of `l` bytes at `idx` reaching `d` bytes back stays within the data and reaches
/// back at most 32768 bytes; for safe data it is a true back-reference that does not reach
/// the leading zero byte.
spec fn match_ok(buf: Seq<u8>, idx: int, d: int, l: int) -> bool {
    &&& 1 <= d <= idx
    &&& d <= 32768
    &&& idx + l <= buf.len()
    &&& safe_buf(buf) ==> {
        &&& d < idx
        &&& forall|k: int| 0 <= k < l ==> #[trigger] buf[idx + k] == buf[idx + k - d]
    }
}

/// The three short-distance candidates at `idx`: the three bytes before it (distance 3), a
/// run of the byte before it (distance 1), and a run of zeros at the start.
pub open spec fn temp_matches_spec(buf: Seq<u8>, idx: int) -> Seq<(u8, u8, u8, usize)> {
    seq![
        if idx >= 3 {
            (buf[idx - 3], buf[idx - 2], buf[idx - 1], (idx - 3) as usize)
        } else {
            (0u8, 0u8, 0u8, 0usize)
        },
        if idx >= 1 {
            (buf[idx - 1], buf[idx - 1], buf[idx - 1], (idx - 1) as usize)
        } else {
            (0u8, 0u8, 0u8, 0usize)
        },
        (0u8, 0u8, 0u8, 0usize),
    ]
}

/// The distance that the short-distance candidates give at `idx`, trying them in turn from
/// `i` with `cur` given so far: a candidate within the window whose three bytes are the next
/// three either agrees with the byte two past `idx`, and its distance replaces `cur`, or ends
/// the search.
pub open spec fn rle_scan(buf: Seq<u8>, idx: int, i: int, cur: Option<usize>) -> Option<usize>
    decreases 3 - i,
{
    if i >= 3 {
        cur
    } else {
        let c = temp_matches_spec(buf, idx)[i];
        if c.0 == buf[idx] && c.1 == buf[idx + 1] && c.2 == buf[idx + 2] && idx - c.3 <= LZ_DICT_SIZE {
            if buf[c.3 as int] == buf[idx + 2] {
                rle_scan(buf, idx, i + 1, Some((idx - c.3) as usize))
            } else {
                cur
            }
        } else {
            rle_scan(buf, idx, i + 1, cur)
        }
    }
}

/// None of the short-distance candidates within the window of `idx` starts with the three
/// bytes at `idx`.
pub open spec fn no_short_candidate(buf: Seq<u8>, idx: int) -> bool {
    forall|i: int|
        0 <= i < 3 ==> !(#[trigger] temp_matches_spec(buf, idx)[i].0 == buf[idx] && temp_matches_spec(buf, idx)[i].1
            == buf[idx + 1] && temp_matches_spec(buf, idx)[i].2 == buf[idx + 2] && idx - temp_matches_spec(
            buf,
            idx,
        )[i].3 <= LZ_DICT_SIZE)
}

/// The position at the head of the hash chain of the three bytes at `idx`.
spec fn chain_head(tm: HashBuffers, buf: Seq<u8>, idx: int) -> int {
    tm.hash@[window_hash(seq![buf[idx], buf[idx + 1], buf[idx + 2]])] as int
}

/// The head of the chain of the three bytes at `idx` is an earlier position (within the first
/// window) that starts the same three bytes, and the window holds them there.
spec fn head_hit(tm: HashBuffers, buf: Seq<u8>, idx: int) -> bool {
    let p = chain_head(tm, buf, idx);
    &&& 0 < p < idx
    &&& idx + 2 < LZ_DICT_SIZE
    &&& idx + 2 < buf.len()
    &&& buf[p] == buf[idx] && buf[p + 1] == buf[idx + 1] && buf[p + 2] == buf[idx + 2]
    &&& tm.dict@[p] == buf[p] && tm.dict@[p + 1] == buf[p + 1] && tm.dict@[p + 2] == buf[p + 2]
}

/// The entry `t` links down a hash chain from position `p`, following `next`.
spec fn chain_at(tm: HashBuffers, p: int, t: nat) -> int
    decreases t,
{
    if t == 0 {
        p
    } else {
        tm.next@[chain_at(tm, p, (t - 1) as nat)] as int
    }
}

/// Entry `t` of the hash chain of the three bytes at `idx`, counting the head as entry 0.
spec fn chain_pos(tm: HashBuffers, buf: Seq<u8>, idx: int, t: nat) -> int {
    chain_at(tm, chain_head(tm, buf, idx), t)
}

/// Entries 0 through `t` of the hash chain of the three bytes at `idx` are positions at least
/// two before `idx`, past the leading byte, that start the same three bytes.
spec fn chain_qualifies(tm: HashBuffers, buf: Seq<u8>, idx: int, t: nat) -> bool {
    forall|s: nat|
        s <= t ==> {
            let c = #[trigger] chain_pos(tm, buf, idx, s);
            &&& 0 < c <= idx - 2
            &&& buf[c] == buf[idx] && buf[c + 1] == buf[idx + 1] && buf[c + 2] == buf[idx + 2]
        }
}

/// The window holds the data's bytes at positions 0 through `idx`, and a match from `idx`
/// ends before the window wraps around.
spec fn window_true(tm: HashBuffers, buf: Seq<u8>, idx: int) -> bool {
    &&& idx + MAX_MATCH_LEN < LZ_DICT_SIZE
    &&& forall|j: int| 0 <= j <= idx ==> #[trigger] tm.dict@[j] == buf[j]
}

/// A measured run is at most 258 bytes long, and at least three where three bytes agree and
/// three remain.
proof fn lemma_chain_run_bounds(buf: Seq<u8>, p: int, idx: int)
    ensures
        chain_run(buf, p, idx) <= MAX_MATCH_LEN,
        idx + 3 <= buf.len() && buf[p] == buf[idx] && buf[p + 1] == buf[idx + 1] && buf[p + 2] == buf[idx + 2]
            ==> chain_run(buf, p, idx) >= 3,
{
    lemma_run_len(buf, p, idx, match_cap(buf.len() as int, idx));
}

/// What the short-distance candidates at `idx` give: the distance of a match of three bytes.
pub open spec fn rle_match(buf: Seq<u8>, idx: int) -> Option<usize> {
    rle_scan(buf, idx, 0, None)
}

/// The short-distance candidates at `buffer_idx`.
fn _get_temp_matches_buffer(buffer_idx: usize, buffer: &Vec<u8>) -> (chars: [(u8, u8, u8, usize); 3])
    requires
        buffer_idx <= buffer.len(),
        buffer.len() <= i32::MAX,
    ensures
        chars@ == temp_matches_spec(buffer@, buffer_idx as int),
{
    let mut chars = [(0u8, 0u8, 0u8, 0usize); 3];
    if buffer_idx as i32 - 3 >= 0 {
        chars[0] = (buffer[buffer_idx - 3], buffer[buffer_idx - 2], buffer[buffer_idx - 1], buffer_idx - 3);
    }
    if buffer_idx as i32 - 2 >= 0 {
        chars[1] = (buffer[buffer_idx - 2], buffer[buffer_idx - 1], buffer[buffer_idx - 2], buffer_idx - 2);
    }
    if buffer_idx > 0 {
        chars[1] = (buffer[buffer_idx - 1], buffer[buffer_idx - 1], buffer[buffer_idx - 1], buffer_idx - 1);
    }
    assert(chars@ =~= temp_matches_spec(buffer@, buffer_idx as int));
    chars
}

/// Tries the short-distance candidates within the window in turn: one whose three bytes equal
/// the next three and whose byte agrees with the byte two past `buffer_idx` gives a match of length 3, a
/// later one replacing an earlier one; one whose byte disagrees ends the search. Each
/// candidate tried also enters the three bytes before `buffer_idx + 2` into the hash chains.
fn find_match_rle(
    buffer: &Vec<u8>,
    buffer_idx: &usize,
    next_3_bytes: (u8, u8, u8),
    temp_hash: &mut RollingHash,
    true_matches: &mut HashBuffers,
    temp_matches: [(u8, u8, u8, usize); 3],
    max_len: &mut usize,
    curr_dist: &mut usize,
)
    requires
        1 <= *buffer_idx,
        *buffer_idx + 2 < buffer.len(),
        buffer.len() <= i32::MAX,
        next_3_bytes == (buffer@[*buffer_idx as int], buffer@[*buffer_idx + 1], buffer@[*buffer_idx + 2]),
        temp_matches@ == temp_matches_spec(buffer@, *buffer_idx as int),
        old(temp_hash).wf(),
        links_ok(*old(true_matches), buffer.len() as int, *buffer_idx as int),
        *old(max_len) == 0,
    ensures
        final(temp_hash).wf(),
        links_ok(*final(true_matches), buffer.len() as int, *buffer_idx as int),
        final(true_matches).dict == old(true_matches).dict,
        *buffer_idx == 1 && hash_cleared(*old(true_matches)) ==> hash_cleared(*final(true_matches)),
        *final(max_len) == 0 || (*final(max_len) == 3 && match_ok(
            buffer@,
            *buffer_idx as int,
            *final(curr_dist) as int,
            3,
        )),
        *final(max_len) == (if rle_match(buffer@, *buffer_idx as int) is Some { 3usize } else { 0usize }),
        rle_match(buffer@, *buffer_idx as int) is Some ==> *final(curr_dist) == rle_match(
            buffer@,
            *buffer_idx as int,
        ).unwrap(),
        no_short_candidate(buffer@, *buffer_idx as int) ==> *final(true_matches) == *old(true_matches),
{
    let ghost buf = buffer@;
    let ghost idx = *buffer_idx as int;
    let ghost len = buffer.len() as int;
    let ghost tm0 = *true_matches;
    let mut i: usize = 0;
    while i < 3
        invariant
            1 <= idx,
            idx == *buffer_idx,
            idx + 2 < len,
            len == buffer.len(),
            buf == buffer@,
            len <= i32::MAX,
            next_3_bytes == (buf[idx], buf[idx + 1], buf[idx + 2]),
            temp_matches@ == temp_matches_spec(buf, idx),
            temp_hash.wf(),
            links_ok(*true_matches, len, idx),
            true_matches.dict == tm0.dict,
            idx == 1 && hash_cleared(tm0) ==> hash_cleared(*true_matches),
            *max_len == 0 || (*max_len == 3 && match_ok(buf, idx, *curr_dist as int, 3)),
            no_short_candidate(buf, idx) ==> *true_matches == tm0,
            i <= 3,
            rle_scan(buf, idx, i as int, if *max_len == 3 { Some(*curr_dist) } else { None }) == rle_match(
                buf,
                idx,
            ),
        ensures
            *max_len == 0 || (*max_len == 3 && match_ok(buf, idx, *curr_dist as int, 3)),
            (if *max_len == 3 { Some(*curr_dist) } else { None }) == rle_match(buf, idx),
            no_short_candidate(buf, idx) ==> *true_matches == tm0,
        decreases 3 - i,
    {
        if temp_matches[i].0 == next_3_bytes.0 && temp_matches[i].1 == next_3_bytes.1
            && temp_matches[i].2 == next_3_bytes.2 && *buffer_idx - temp_matches[i].3 <= LZ_DICT_SIZE {
            let mut found_idx = temp_matches[i].3;
            let start_match_idx = found_idx;
            let mut temp_buffer_idx = *buffer_idx + 2;
            if temp_buffer_idx >= 3 {
                let val = (buffer[temp_buffer_idx - 3], buffer[temp_buffer_idx - 2], buffer[temp_buffer_idx - 1]);
                temp_hash.add_char(val.0);
                temp_hash.add_char(val.1);
                temp_hash.add_char(val.2);
                proof {
                    lemma_mask((temp_buffer_idx - 3) as usize);
                }
                if true_matches.hash[temp_hash.hash as usize] != (temp_buffer_idx - 3) & LZ_DICT_SIZE_MASK {
                    true_matches.next[(temp_buffer_idx - 3) & LZ_DICT_SIZE_MASK] =
                        true_matches.hash[temp_hash.hash as usize];
                    true_matches.hash[temp_hash.hash as usize] = (temp_buffer_idx - 3) & LZ_DICT_SIZE_MASK;
                }
            }
            if temp_buffer_idx < buffer.len() {
                let next_el = buffer[found_idx];
                if next_el != buffer[temp_buffer_idx] || (temp_buffer_idx - *buffer_idx >= 258) {
                    break;
                }
                temp_buffer_idx += 1;
                found_idx += 1;
                if temp_buffer_idx - *buffer_idx >= *max_len {
                    *curr_dist = *buffer_idx - start_match_idx;
                    *max_len = temp_buffer_idx - *buffer_idx;
                    proof {
                        if safe_buf(buf) {
                            assert(buf[idx] != 0);
                            if i == 0 {
                                assert(idx >= 3);
                                assert(idx != 3);
                            }
                            assert forall|k: int| 0 <= k < 3 implies #[trigger] buf[idx + k] == buf[idx
                                + k - *curr_dist] by {
                                if i == 1 {
                                    assert(buf[idx + 0] == buf[idx - 1]);
                                }
                            }
                        }
                    }
                }
            } else {
                break;
            }
        }
        i += 1;
    }
}

/// Looks for the longest earlier occurrence of the bytes at `buffer_idx`: first among the
/// short-distance candidates, then along the hash chain of the next three bytes, probing a
/// bounded number of chain entries. Bytes read ahead while comparing are entered into the
/// window and the chains. Returns `(distance, length)` for a match of at least 3 bytes. Where
/// no short-distance candidate applies and the window holds the data's bytes up to
/// `buffer_idx` without wrapping, the match is at least as long as the run from each of the
/// first five chain entries, so long as each of them (and every entry before it) starts the
/// same three bytes.
#[verifier::spinoff_prover]
fn find_match_buffer_rolling(buffer: &Vec<u8>, buffer_idx: &usize, true_matches: &mut HashBuffers) -> (found: Option<
    (usize, usize),
>)
    requires
        *buffer_idx <= buffer.len(),
        buffer.len() <= i32::MAX,
        *buffer_idx + 2 < buffer.len() ==> {
            &&& 1 <= *buffer_idx
            &&& links_ok(*old(true_matches), buffer.len() as int, *buffer_idx as int)
            &&& window_ok(*old(true_matches), buffer@)
            &&& *buffer_idx == 1 ==> hash_cleared(*old(true_matches))
        },
    ensures
        *buffer_idx + 2 < buffer.len() ==> links_ok(*final(true_matches), buffer.len() as int, *buffer_idx as int),
        *buffer_idx + 2 < buffer.len() ==> window_ok(*final(true_matches), buffer@),
        match found {
            None => true,
            Some((d, l)) => 3 <= l <= MAX_MATCH_LEN && match_ok(buffer@, *buffer_idx as int, d as int, l as int),
        },
        *buffer_idx + 2 >= buffer.len() ==> found is None && *final(true_matches) == *old(true_matches),
        *buffer_idx + 2 < buffer.len() && rle_match(buffer@, *buffer_idx as int) is Some ==> found is Some,
        no_short_candidate(buffer@, *buffer_idx as int) && head_hit(*old(true_matches), buffer@, *buffer_idx as int)
            ==> found is Some,
        *buffer_idx + 2 < buffer.len() && window_true(*old(true_matches), buffer@, *buffer_idx as int) ==> {
            &&& forall|j: int| 0 <= j <= *buffer_idx ==> #[trigger] final(true_matches).dict@[j] == buffer@[j]
            &&& match found {
                Some((d, l)) => (rle_match(buffer@, *buffer_idx as int) == Some(d) && l == 3) || (l == chain_run(
                    buffer@,
                    *buffer_idx - d,
                    *buffer_idx as int,
                ) && forall|j: int| 0 <= j < *buffer_idx + l ==> #[trigger] final(true_matches).dict@[j] == buffer@[j]),
                None => true,
            }
        },
        *buffer_idx + 2 < buffer.len() && no_short_candidate(buffer@, *buffer_idx as int) && window_true(
            *old(true_matches),
            buffer@,
            *buffer_idx as int,
        ) ==> forall|t: nat|
            t < 5 && #[trigger] chain_qualifies(*old(true_matches), buffer@, *buffer_idx as int, t) ==> {
                &&& found is Some
                &&& found.unwrap().1 >= chain_run(
                    buffer@,
                    chain_pos(*old(true_matches), buffer@, *buffer_idx as int, t),
                    *buffer_idx as int,
                )
            },
{
    let ghost tm_in = *true_matches;
    let ghost buf = buffer@;
    let ghost idx = *buffer_idx as int;
    let ghost len = buffer.len() as int;
    let look_back_window = if *buffer_idx < LZ_DICT_SIZE {
        0
    } else {
        *buffer_idx - LZ_DICT_SIZE
    };
    let look_ahead_window = if buffer.len() < *buffer_idx + MAX_MATCH_LEN {
        buffer.len()
    } else {
        *buffer_idx + MAX_MATCH_LEN
    };
    let window = &buffer.as_slice()[look_back_window..look_ahead_window];
    let mut max_len: usize = 0;
    let mut curr_dist: usize = 0;
    if *buffer_idx + 2 >= buffer.len() {
        let curr_option = if max_len != 0 {
            Some((curr_dist, max_len))
        } else {
            None
        };
        return curr_option;
    }
    let temp_matches = _get_temp_matches_buffer(*buffer_idx, buffer);
    let next_3_bytes = (buffer[*buffer_idx], buffer[*buffer_idx + 1], buffer[*buffer_idx + 2]);
    let mut temp_hash = RollingHash::new();
    temp_hash.add_trigram(next_3_bytes);
    let ghost tm0 = *true_matches;
    find_match_rle(
        buffer,
        buffer_idx,
        next_3_bytes,
        &mut temp_hash,
        true_matches,
        temp_matches,
        &mut max_len,
        &mut curr_dist,
    );
    // Start over from the hash of the next three bytes.
    temp_hash.add_trigram(next_3_bytes);
    let mut index = true_matches.hash[temp_hash.hash as usize];
    let mut max_temp_buffer_idx = *buffer_idx;
    let mut num_probes_left: i32 = 6;
    let ghost cond = no_short_candidate(buf, idx) && head_hit(tm_in, buf, idx);
    let ghost head = chain_head(tm_in, buf, idx);
    let ghost mut first = true;
    let ghost clean = no_short_candidate(buf, idx) && window_true(tm_in, buf, idx);
    let ghost wt = window_true(tm_in, buf, idx);
    let ghost mut tcount: nat = 0;
    proof {
        if cond || clean {
            assert(temp_hash.window() == seq![buf[idx], buf[idx + 1], buf[idx + 2]]);
            assert(index as int == head);
        }
    }
    while index != 0
        invariant_except_break
            clean && chain_qualifies(tm_in, buf, idx, tcount) ==> index as int == chain_pos(tm_in, buf, idx, tcount)
                && num_probes_left == 6 - tcount,
        invariant
            cond == (no_short_candidate(buf, idx) && head_hit(tm_in, buf, idx)),
            head == chain_head(tm_in, buf, idx),
            tm_in == *old(true_matches),
            cond && first ==> index as int == head && num_probes_left == 6 && *true_matches == tm_in
                && max_temp_buffer_idx == idx,
            cond && !first ==> max_len >= 3,
            buf == buffer@,
            idx == *buffer_idx,
            len == buffer.len(),
            1 <= idx,
            idx + 2 < len,
            len <= i32::MAX,
            look_back_window == (if idx < LZ_DICT_SIZE { 0 } else { idx - LZ_DICT_SIZE }),
            look_ahead_window == (if len < idx + MAX_MATCH_LEN { len } else { idx + MAX_MATCH_LEN }),
            window@ == buf.subrange(look_back_window as int, look_ahead_window as int),
            links_ok(*true_matches, len, idx),
            window_ok(*true_matches, buf),
            link_ok(index, len, idx),
            idx >= 2 || index == 0,
            temp_hash.wf(),
            1 <= num_probes_left <= 6,
            idx <= max_temp_buffer_idx < len,
            max_len <= MAX_MATCH_LEN,
            max_len == 0 || match_ok(buf, idx, curr_dist as int, max_len as int),
            rle_match(buf, idx) is Some ==> max_len >= 3,
            clean == (no_short_candidate(buf, idx) && window_true(tm_in, buf, idx)),
            wt == window_true(tm_in, buf, idx),
            wt ==> max_len == 0 || (max_len == 3 && rle_match(buf, idx) == Some(curr_dist)) || (max_len == chain_run(
                buf,
                idx - curr_dist,
                idx,
            ) && idx + max_len <= max_temp_buffer_idx + 1),
            max_temp_buffer_idx < idx + MAX_MATCH_LEN,
            wt ==> forall|j: int|
                0 <= j <= max_temp_buffer_idx ==> #[trigger] true_matches.dict@[j] == buf[j],
            clean ==> forall|j: int| 0 <= j <= idx - 2 ==> #[trigger] true_matches.next@[j] == tm_in.next@[j],
            clean ==> forall|t: nat|
                t < tcount && #[trigger] chain_qualifies(tm_in, buf, idx, t) ==> max_len >= chain_run(
                    buf,
                    chain_pos(tm_in, buf, idx, t),
                    idx,
                ),
        ensures
            wt ==> max_len == 0 || (max_len == 3 && rle_match(buf, idx) == Some(curr_dist)) || (max_len == chain_run(
                buf,
                idx - curr_dist,
                idx,
            ) && idx + max_len <= max_temp_buffer_idx + 1),
            wt ==> forall|j: int| 0 <= j <= max_temp_buffer_idx ==> #[trigger] true_matches.dict@[j] == buf[j],
            idx <= max_temp_buffer_idx,
            clean ==> forall|t: nat|
                t < 5 && #[trigger] chain_qualifies(tm_in, buf, idx, t) ==> max_len >= chain_run(
                    buf,
                    chain_pos(tm_in, buf, idx, t),
                    idx,
                ),
            cond ==> max_len >= 3,
            rle_match(buf, idx) is Some ==> max_len >= 3,
            links_ok(*true_matches, len, idx),
            window_ok(*true_matches, buf),
            max_len <= MAX_MATCH_LEN,
            max_len == 0 || match_ok(buf, idx, curr_dist as int, max_len as int),
        decreases num_probes_left,
    {
        // Walk the chain to an entry whose three bytes are the next three.
        let mut found = false;
        let ghost probes0 = num_probes_left;
        let ghost ideal = clean && chain_qualifies(tm_in, buf, idx, tcount);
        while !found
            invariant
                idx <= max_temp_buffer_idx,
                found && safe_buf(buf) ==> index >= 1,
                ideal == (clean && chain_qualifies(tm_in, buf, idx, tcount)),
                clean == (no_short_candidate(buf, idx) && window_true(tm_in, buf, idx)),
                wt == window_true(tm_in, buf, idx),
                wt ==> max_len == 0 || (max_len == 3 && rle_match(buf, idx) == Some(curr_dist)) || (max_len == chain_run(
                    buf,
                    idx - curr_dist,
                    idx,
                ) && idx + max_len <= max_temp_buffer_idx + 1),
                ideal ==> index as int == chain_pos(tm_in, buf, idx, tcount) && probes0 == 6 - tcount && (if found {
                    num_probes_left == 5 - tcount
                } else {
                    num_probes_left == 6 - tcount
                }),
                clean ==> forall|t: nat|
                    t < tcount && #[trigger] chain_qualifies(tm_in, buf, idx, t) ==> max_len >= chain_run(
                        buf,
                        chain_pos(tm_in, buf, idx, t),
                        idx,
                    ),
                wt ==> forall|j: int|
                    0 <= j <= max_temp_buffer_idx ==> #[trigger] true_matches.dict@[j] == buf[j],
                clean ==> forall|j: int| 0 <= j <= idx - 2 ==> #[trigger] true_matches.next@[j] == tm_in.next@[j],
                cond == (no_short_candidate(buf, idx) && head_hit(tm_in, buf, idx)),
                head == chain_head(tm_in, buf, idx),
                tm_in == *old(true_matches),
                cond && first ==> index as int == head && *true_matches == tm_in && probes0 == 6 && (if found {
                    num_probes_left == 5
                } else {
                    num_probes_left == 6
                }),
                cond && !first ==> max_len >= 3,
                buf == buffer@,
                idx == *buffer_idx,
                len == buffer.len(),
                1 <= idx,
                idx + 2 < len,
                window_ok(*true_matches, buf),
                found ==> num_probes_left < probes0,
                num_probes_left <= probes0,
                look_back_window == (if idx < LZ_DICT_SIZE { 0 } else { idx - LZ_DICT_SIZE }),
                look_ahead_window == (if len < idx + MAX_MATCH_LEN { len } else { idx + MAX_MATCH_LEN }),
                window@ == buf.subrange(look_back_window as int, look_ahead_window as int),
                links_ok(*true_matches, len, idx),
                link_ok(index, len, idx),
                1 <= num_probes_left <= 6,
                max_len <= MAX_MATCH_LEN,
                max_len == 0 || match_ok(buf, idx, curr_dist as int, max_len as int),
                rle_match(buf, idx) is Some ==> max_len >= 3,
            decreases num_probes_left,
        {
            num_probes_left -= 1;
            if num_probes_left == 0 {
                proof {
                    if clean {
                        assert forall|t: nat|
                            t < 5 && #[trigger] chain_qualifies(tm_in, buf, idx, t) implies max_len >= 3
                            && max_len >= chain_run(buf, chain_pos(tm_in, buf, idx, t), idx) by {
                            if t >= tcount {
                                assert(chain_qualifies(tm_in, buf, idx, tcount));
                            }
                            let c = chain_pos(tm_in, buf, idx, t);
                            lemma_chain_run_bounds(buf, c, idx);
                        }
                    }
                }
                let curr_option = if max_len >= 3 {
                    Some((curr_dist, max_len))
                } else {
                    None
                };
                return curr_option;
            }
            let mut tries: usize = 0;
            while tries < 3 && !found
                invariant
                    cond == (no_short_candidate(buf, idx) && head_hit(tm_in, buf, idx)),
                    head == chain_head(tm_in, buf, idx),
                    tm_in == *old(true_matches),
                    cond && first ==> index as int == head && tries == 0,
                    1 <= idx,
                    found && safe_buf(buf) ==> index >= 1,
                    ideal ==> index as int == chain_pos(tm_in, buf, idx, tcount) && tries == 0 && chain_qualifies(
                        tm_in,
                        buf,
                        idx,
                        tcount,
                    ) && idx + MAX_MATCH_LEN < LZ_DICT_SIZE,
                    buf == buffer@,
                    window@ == buf.subrange(look_back_window as int, look_ahead_window as int),
                    idx == *buffer_idx,
                    len == buffer.len(),
                    idx + 2 < len,
                    look_back_window == (if idx < LZ_DICT_SIZE { 0 } else { idx - LZ_DICT_SIZE }),
                    look_ahead_window == (if len < idx + MAX_MATCH_LEN { len } else { idx
                        + MAX_MATCH_LEN }),
                    window@.len() == look_ahead_window - look_back_window,
                    links_ok(*true_matches, len, idx),
                    link_ok(index, len, idx),
                decreases (if found { 0int } else { 1int }) + 2 * (3 - tries),
            {
                proof {
                    lemma_mask(index);
                    lemma_mask((index + 1) as usize);
                    lemma_mask((index + 2) as usize);
                }
                let index1 = index & LZ_DICT_SIZE_MASK;
                let index2 = (index + 1) & LZ_DICT_SIZE_MASK;
                let index3 = (index + 2) & LZ_DICT_SIZE_MASK;
                let element1 = window[index1];
                let element2 = window[index2];
                let element3 = window[index3];
                if element1 == buffer[*buffer_idx] && element2 == buffer[*buffer_idx + 1] && element3
                    == buffer[*buffer_idx + 2] {
                    proof {
                        if safe_buf(buf) {
                            assert(look_back_window == 0);
                            assert(window@[index1 as int] == buf[index as int]);
                            assert(buf[idx] != 0);
                        }
                    }
                    found = true;
                } else {
                    let idx2 = index & LZ_DICT_SIZE_MASK;
                    index = true_matches.next[idx2];
                    tries += 1;
                }
            }
        }
        if *buffer_idx <= index {
            let next_idx = true_matches.next[index];
            index = next_idx;
            continue;
        }
        if *buffer_idx - index > 32768 {
            proof {
                if clean {
                    assert forall|t: nat|
                        t < 5 && #[trigger] chain_qualifies(tm_in, buf, idx, t) implies max_len >= chain_run(
                        buf,
                        chain_pos(tm_in, buf, idx, t),
                        idx,
                    ) by {
                        if t >= tcount {
                            assert(chain_qualifies(tm_in, buf, idx, tcount));
                        }
                    }
                }
            }
            break;
        }
        if max_len == 258 {
            proof {
                first = false;
            }
            proof {
                if clean {
                    assert forall|t: nat|
                        t < 5 && #[trigger] chain_qualifies(tm_in, buf, idx, t) implies max_len >= chain_run(
                        buf,
                        chain_pos(tm_in, buf, idx, t),
                        idx,
                    ) by {
                        lemma_chain_run_bounds(buf, chain_pos(tm_in, buf, idx, t), idx);
                    }
                }
            }
            break;
        }
        let ghost first_now = cond && first;
        let mut found_idx = index;
        let start_match_idx = found_idx;
        let mut temp_buffer_idx = *buffer_idx;
        // Compare byte by byte, entering the bytes read ahead into the window and the chains.
        let key = (buffer[temp_buffer_idx - 2], buffer[temp_buffer_idx - 1], buffer[temp_buffer_idx]);
        temp_hash.add_trigram(key);
        let mut reached_max = false;
        loop
            invariant_except_break
                buf == buffer@,
                idx == *buffer_idx,
                len == buffer.len(),
                2 <= idx,
                idx + 2 < len,
                len <= i32::MAX,
                start_match_idx < idx,
                safe_buf(buf) ==> start_match_idx >= 1,
                idx - start_match_idx <= 32768,
                idx <= temp_buffer_idx <= len,
                temp_buffer_idx - idx <= MAX_MATCH_LEN,
                found_idx == start_match_idx + (temp_buffer_idx - idx),
                safe_buf(buf) ==> forall|k: int|
                    0 <= k < temp_buffer_idx - idx ==> #[trigger] buf[idx + k] == buf[start_match_idx + k],
                links_ok(*true_matches, len, idx),
                window_ok(*true_matches, buf),
                temp_hash.wf(),
                idx <= max_temp_buffer_idx < len,
                max_len <= MAX_MATCH_LEN,
                max_len == 0 || match_ok(buf, idx, curr_dist as int, max_len as int),
                rle_match(buf, idx) is Some ==> max_len >= 3,
                !reached_max,
                first_now ==> start_match_idx as int == head && head_hit(tm_in, buf, idx) && idx + 2 < LZ_DICT_SIZE,
                head == chain_head(tm_in, buf, idx),
                first_now ==> forall|k: int|
                    temp_buffer_idx - idx <= k < 3 ==> #[trigger] true_matches.dict@[start_match_idx + k] == buf[idx
                        + k],
                cond && !first ==> max_len >= 3,
                ideal == (clean && chain_qualifies(tm_in, buf, idx, tcount)),
                clean == (no_short_candidate(buf, idx) && window_true(tm_in, buf, idx)),
                wt == window_true(tm_in, buf, idx),
                wt ==> max_len == 0 || (max_len == 3 && rle_match(buf, idx) == Some(curr_dist)) || (max_len == chain_run(
                    buf,
                    idx - curr_dist,
                    idx,
                ) && idx + max_len <= max_temp_buffer_idx + 1),
                ideal ==> start_match_idx as int == chain_pos(tm_in, buf, idx, tcount),
                temp_buffer_idx <= max_temp_buffer_idx + 1,
                max_temp_buffer_idx < idx + MAX_MATCH_LEN,
                wt ==> forall|j: int|
                    0 <= j <= max_temp_buffer_idx ==> #[trigger] true_matches.dict@[j] == buf[j],
                clean ==> forall|j: int| 0 <= j <= idx - 2 ==> #[trigger] true_matches.next@[j] == tm_in.next@[j],
                clean ==> forall|t: nat|
                    t < tcount && #[trigger] chain_qualifies(tm_in, buf, idx, t) ==> max_len >= chain_run(
                        buf,
                        chain_pos(tm_in, buf, idx, t),
                        idx,
                    ),
                wt ==> chain_run(buf, start_match_idx as int, idx) == (temp_buffer_idx - idx) + run_len(
                    buf,
                    found_idx as int,
                    temp_buffer_idx as int,
                    match_cap(len, idx) - (temp_buffer_idx - idx),
                ),
            ensures
                wt && !reached_max ==> temp_buffer_idx - idx == chain_run(buf, start_match_idx as int, idx),
                wt && reached_max ==> max_len == chain_run(buf, idx - curr_dist, idx) && idx + max_len
                    <= max_temp_buffer_idx + 1,
                wt ==> max_len == 0 || (max_len == 3 && rle_match(buf, idx) == Some(curr_dist)) || (max_len
                    == chain_run(buf, idx - curr_dist, idx) && idx + max_len <= max_temp_buffer_idx + 1),
                temp_buffer_idx <= max_temp_buffer_idx + 1,
                idx <= max_temp_buffer_idx,
                ideal ==> start_match_idx as int == chain_pos(tm_in, buf, idx, tcount),
                max_temp_buffer_idx < idx + MAX_MATCH_LEN,
                wt ==> forall|j: int|
                    0 <= j <= max_temp_buffer_idx ==> #[trigger] true_matches.dict@[j] == buf[j],
                clean ==> forall|j: int| 0 <= j <= idx - 2 ==> #[trigger] true_matches.next@[j] == tm_in.next@[j],
                clean ==> forall|t: nat|
                    t < tcount && #[trigger] chain_qualifies(tm_in, buf, idx, t) ==> max_len >= chain_run(
                        buf,
                        chain_pos(tm_in, buf, idx, t),
                        idx,
                    ),
                first_now ==> temp_buffer_idx - idx >= 3,
                cond && !first ==> max_len >= 3,
                reached_max ==> max_len >= 258,
                buf == buffer@,
                idx <= temp_buffer_idx <= len,
                temp_buffer_idx - idx <= MAX_MATCH_LEN,
                safe_buf(buf) ==> forall|k: int|
                    0 <= k < temp_buffer_idx - idx ==> #[trigger] buf[idx + k] == buf[start_match_idx + k],
                links_ok(*true_matches, len, idx),
                window_ok(*true_matches, buf),
                temp_hash.wf(),
                idx <= max_temp_buffer_idx < len,
                max_len <= MAX_MATCH_LEN,
                max_len == 0 || match_ok(buf, idx, curr_dist as int, max_len as int),
                rle_match(buf, idx) is Some ==> max_len >= 3,
            decreases len - temp_buffer_idx,
        {
            if temp_buffer_idx >= buffer.len() {
                break;
            }
            if temp_buffer_idx - *buffer_idx >= 258 {
                if temp_buffer_idx - *buffer_idx > max_len {
                    curr_dist = *buffer_idx - start_match_idx;
                    max_len = temp_buffer_idx - *buffer_idx;
                    proof {
                        if safe_buf(buf) {
                            assert(buf[idx + 0] == buf[start_match_idx + 0]);
                            assert forall|k: int| 0 <= k < max_len implies #[trigger] buf[idx + k] == buf[idx
                                + k - curr_dist] by {
                                assert(buf[idx + k] == buf[start_match_idx + k]);
                            }
                        }
                    }
                }
                reached_max = true;
                break;
            }
            proof {
                lemma_mask(found_idx);
            }
            if true_matches.dict[found_idx & LZ_DICT_SIZE_MASK] != buffer[temp_buffer_idx] {
                break;
            }
            let ghost d0 = true_matches.dict@;
            proof {
                if safe_buf(buf) {
                    assert(buf[temp_buffer_idx as int] != 0);
                    assert(true_matches.dict@[(found_idx & LZ_DICT_SIZE_MASK) as int] == buf[found_idx as int]);
                    assert(buf[idx + (temp_buffer_idx - idx)] == buf[start_match_idx + (temp_buffer_idx
                        - idx)]);
                }
            }
            temp_hash.add_char(buffer[temp_buffer_idx]);
            if temp_buffer_idx >= 2 {
                if temp_buffer_idx > max_temp_buffer_idx {
                    proof {
                        lemma_mask(temp_buffer_idx);
                        lemma_mask((temp_buffer_idx - 2) as usize);
                    }
                    true_matches.dict[temp_buffer_idx & LZ_DICT_SIZE_MASK] = buffer[temp_buffer_idx];
                    if true_matches.hash[temp_hash.hash as usize] != (temp_buffer_idx - 2) & LZ_DICT_SIZE_MASK {
                        true_matches.next[(temp_buffer_idx - 2) & LZ_DICT_SIZE_MASK] =
                            true_matches.hash[temp_hash.hash as usize];
                        true_matches.hash[temp_hash.hash as usize] = (temp_buffer_idx - 2) & LZ_DICT_SIZE_MASK;
                    }
                }
                if temp_buffer_idx > max_temp_buffer_idx {
                    max_temp_buffer_idx = temp_buffer_idx;
                }
            }
            proof {
                if first_now && temp_buffer_idx + 1 - idx < 3 {
                    lemma_mask(temp_buffer_idx);
                    assert(head_hit(tm_in, buf, idx));
                    let p = chain_head(tm_in, buf, idx);
                    assert(p == start_match_idx);
                    assert(buf[p + 1] == buf[idx + 1] && buf[p + 2] == buf[idx + 2]);
                    assert forall|k: int| temp_buffer_idx + 1 - idx <= k < 3 implies #[trigger] true_matches.dict@[
                        start_match_idx + k] == buf[idx + k] by {
                        assert(d0[start_match_idx + k] == buf[idx + k]);
                        if k == 0 {
                            assert(buf[start_match_idx + 0] == buf[idx + 0]);
                        } else if k == 1 {
                            assert(buf[start_match_idx + 1] == buf[idx + 1]);
                        } else {
                            assert(buf[start_match_idx + 2] == buf[idx + 2]);
                        }
                    }
                }
            }
            temp_buffer_idx += 1;
            found_idx += 1;
        }
        if reached_max {
            proof {
                first = false;
            }
            proof {
                if clean {
                    assert forall|t: nat|
                        t < 5 && #[trigger] chain_qualifies(tm_in, buf, idx, t) implies max_len >= chain_run(
                        buf,
                        chain_pos(tm_in, buf, idx, t),
                        idx,
                    ) by {
                        lemma_chain_run_bounds(buf, chain_pos(tm_in, buf, idx, t), idx);
                    }
                }
            }
            break;
        }
        if temp_buffer_idx - *buffer_idx > max_len {
            curr_dist = *buffer_idx - start_match_idx;
            max_len = temp_buffer_idx - *buffer_idx;
            proof {
                if safe_buf(buf) {
                    assert(buf[idx + 0] == buf[start_match_idx + 0]);
                    assert forall|k: int| 0 <= k < max_len implies #[trigger] buf[idx + k] == buf[idx + k
                        - curr_dist] by {
                        assert(buf[idx + k] == buf[start_match_idx + k]);
                    }
                }
            }
        }
        proof {
            first = false;
            if ideal {
                assert(max_len >= chain_run(buf, chain_pos(tm_in, buf, idx, tcount), idx));
                assert(chain_pos(tm_in, buf, idx, tcount + 1) == tm_in.next@[chain_pos(tm_in, buf, idx, tcount)]);
            }
            tcount = tcount + 1;
        }
        let next_idx = true_matches.next[index];
        index = next_idx;
    }
    proof {
        if clean {
            assert forall|t: nat| t < 5 && #[trigger] chain_qualifies(tm_in, buf, idx, t) implies max_len >= 3 by {
                lemma_chain_run_bounds(buf, chain_pos(tm_in, buf, idx, t), idx);
            }
        }
    }
    let curr_option = if max_len >= 3 {
        Some((curr_dist, max_len))
    } else {
        None
    };
    curr_option
}

/// Where the parse of `lz77_compression_new` starts in the data behind its leading zero byte:
/// at that zero byte itself for data of fewer than two bytes, else right after it.
pub open spec fn lz77_start(data: Seq<u8>) -> int {
    if data.len() < 2 {
        0
    } else {
        1
    }
}

/// Data on which the parse of `lz77_compression_new` is made of true back-references: 2 to
/// 32768 bytes, none of them zero.
pub open spec fn lz77_safe(data: Seq<u8>) -> bool {
    &&& 2 <= data.len() <= 32768
    &&& forall|i: int| 0 <= i < data.len() ==> #[trigger] data[i] != 0
}

/// Appending one token to a parse.
pub(crate) proof fn lemma_push_token(ts: Seq<Lz77Token>, t: Lz77Token, buf: Seq<u8>, start: int)
    ensures
        placed_tokens(ts.push(t), start) == placed_tokens(ts, start).push((t, tokens_end(ts, start))),
        placed_tokens(ts, start).len() == ts.len(),
        encode_tokens(ts.push(t)) == encode_tokens(ts) + token_bits(t),
        tokens_end(ts.push(t), start) == tokens_end(ts, start) + crate::block::token_span(t),
        lz77_parse(ts.push(t), buf, start) == (lz77_parse(ts, buf, start) && token_fits(
            t,
            buf,
            tokens_end(ts, start),
        )),
        lz77_sound(ts.push(t), buf, start) == (lz77_sound(ts, buf, start) && token_sound(
            t,
            buf,
            tokens_end(ts, start),
        )),
{
    assert(ts.push(t).drop_last() =~= ts);
    crate::block::lemma_placed_len(ts, start);
}

/// A token that `lz77_compression_new` may write where it stands in the data behind its
/// leading zero byte: a literal only where the short-distance candidates give no match, and a
/// match reaching back 1 to 32768 bytes.
pub open spec fn new_token_ok(buf: Seq<u8>, tp: (Lz77Token, int)) -> bool {
    match tp.0 {
        Lz77Token::Literal(_) => tp.1 + 2 >= buf.len() || rle_match(buf, tp.1) is None,
        Lz77Token::Match(l, d) => 1 <= d <= 32768,
    }
}

/// The length of a match at `tp`'s position where the window holds the data: 3 with the
/// distance the short-distance candidates give, or exactly the run from the position the
/// match reaches back to.
pub open spec fn exact_token(buf: Seq<u8>, tp: (Lz77Token, int)) -> bool {
    match tp.0 {
        Lz77Token::Literal(_) => true,
        Lz77Token::Match(l, d) => (rle_match(buf, tp.1) == Some(d) && l == 3) || l == chain_run(
            buf,
            tp.1 - d,
            tp.1,
        ),
    }
}

/// A token after which the window still holds the data: a literal, or a match that the
/// short-distance candidates alone do not account for.
pub open spec fn keeps_window(buf: Seq<u8>, tp: (Lz77Token, int)) -> bool {
    match tp.0 {
        Lz77Token::Literal(_) => true,
        Lz77Token::Match(l, _) => rle_match(buf, tp.1) is None || l > 3,
    }
}

/// Every token of the parse that starts more than 258 bytes before the window's end, and
/// before which every token kept the window, has the exact length.
pub open spec fn exact_lengths(buf: Seq<u8>, pl: Seq<(Lz77Token, int)>) -> bool {
    forall|i: int|
        0 <= i < pl.len() && pl[i].1 + MAX_MATCH_LEN < LZ_DICT_SIZE && (forall|j: int|
            0 <= j < i ==> #[trigger] keeps_window(buf, pl[j])) ==> #[trigger] exact_token(buf, pl[i])
}

/// Compresses `zodie` with LZ77 over a 32 KiB window and appends the fixed-Huffman codes of
/// its tokens to `compressed`. The data is compressed behind one leading zero byte, which
/// matches may not reach; data of fewer than two bytes is written as literals, that zero
/// byte included. While the window holds the data (before the first match that the
/// short-distance candidates alone give, and short of the window's end), each match is
/// either such a 3-byte match or exactly as long as the run from the position it reaches
/// back to.
pub fn lz77_compression_new(zodie: Vec<u8>, compressed: &mut Vec<bool>)
    requires
        zodie.len() < i32::MAX,
    ensures
        exists|ts: Seq<Lz77Token>|
            {
                &&& #[trigger] lz77_parse(ts, seq![0u8] + zodie@, lz77_start(zodie@))
                &&& tokens_end(ts, lz77_start(zodie@)) == zodie.len() + 1
                &&& final(compressed)@ == old(compressed)@ + encode_tokens(ts)
                &&& lz77_safe(zodie@) ==> lz77_sound(ts, seq![0u8] + zodie@, 1)
                &&& forall|i: int|
                    0 <= i < ts.len() ==> #[trigger] new_token_ok(seq![0u8] + zodie@, placed_tokens(ts, lz77_start(zodie@))[i])
                &&& exact_lengths(seq![0u8] + zodie@, placed_tokens(ts, lz77_start(zodie@)))
            },
{
    let ghost c0 = compressed@;
    let ghost data = zodie@;
    let mut buffer = zodie.clone();
    buffer.insert(0, 0);
    assert(buffer@ =~= seq![0u8] + data);
    let ghost buf = buffer@;
    let mut true_matches = HashBuffers::default();
    let ghost mut ts: Seq<Lz77Token> = Seq::empty();
    assert(placed_tokens(ts, 0).len() == 0 && placed_tokens(ts, 1).len() == 0);
    if buffer.len() < 3 {
        let mut k: usize = 0;
        while k < buffer.len()
            invariant
                buf == buffer@,
                k <= buffer.len(),
                lz77_parse(ts, buf, 0),
                tokens_end(ts, 0) == k,
                compressed@ == c0 + encode_tokens(ts),
                buffer.len() < 3,
                placed_tokens(ts, 0).len() == ts.len(),
                forall|i: int| 0 <= i < ts.len() ==> #[trigger] new_token_ok(buf, placed_tokens(ts, 0)[i]),
                exact_lengths(buf, placed_tokens(ts, 0)),
            decreases buffer.len() - k,
        {
            let num = buffer[k];
            let mut bits = reverse_huffman(num);
            compressed.append(&mut bits);
            proof {
                lemma_push_token(ts, Lz77Token::Literal(num), buf, 0);
                let pl0 = placed_tokens(ts, 0);
                ts = ts.push(Lz77Token::Literal(num));
                assert(new_token_ok(buf, placed_tokens(ts, 0)[ts.len() - 1]));
                let pl = placed_tokens(ts, 0);
                assert forall|i: int|
                    0 <= i < pl.len() && pl[i].1 + MAX_MATCH_LEN < LZ_DICT_SIZE && (forall|j: int|
                        0 <= j < i ==> #[trigger] keeps_window(buf, pl[j])) implies #[trigger] exact_token(buf, pl[i]) by {
                    if i < pl0.len() {
                        assert(pl[i] == pl0[i]);
                        assert forall|j: int| 0 <= j < i implies #[trigger] keeps_window(buf, pl0[j]) by {
                            assert(pl[j] == pl0[j]);
                        }
                    }
                }
            }
            k += 1;
        }
        assert(lz77_parse(ts, seq![0u8] + zodie@, lz77_start(zodie@)));
        return;
    }
    let mut curr_hash = RollingHash::new();
    let mut buffer_idx: usize = 1;
    proof {
        if lz77_safe(data) {
            assert(safe_buf(buf)) by {
                assert forall|j: int| 1 <= j < buf.len() implies #[trigger] buf[j] != 0 by {
                    assert(buf[j] == data[j - 1]);
                }
            }
        }
    }
    while buffer_idx < buffer.len()
        invariant
            buf == buffer@,
            buf == seq![0u8] + data,
            3 <= buffer.len() <= i32::MAX,
            1 <= buffer_idx <= buffer.len(),
            lz77_parse(ts, buf, 1),
            tokens_end(ts, 1) == buffer_idx,
            compressed@ == c0 + encode_tokens(ts),
            placed_tokens(ts, 1).len() == ts.len(),
            forall|i: int| 0 <= i < ts.len() ==> #[trigger] new_token_ok(buf, placed_tokens(ts, 1)[i]),
            lz77_safe(data) ==> safe_buf(buf),
            safe_buf(buf) ==> lz77_sound(ts, buf, 1),
            links_ok(true_matches, buffer.len() as int, buffer_idx as int),
            window_ok(true_matches, buf),
            buffer_idx == 1 ==> hash_cleared(true_matches),
            curr_hash.wf(),
            exact_lengths(buf, placed_tokens(ts, 1)),
            (forall|j: int| 0 <= j < ts.len() ==> #[trigger] keeps_window(buf, placed_tokens(ts, 1)[j])) && buffer_idx
                + MAX_MATCH_LEN < LZ_DICT_SIZE ==> forall|j: int|
                0 <= j < buffer_idx ==> #[trigger] true_matches.dict@[j] == buf[j],
        decreases buffer.len() - buffer_idx,
    {
        let ghost ts0 = ts;
        let ghost pos = buffer_idx as int;
        let ghost prefix_keeps = forall|j: int| 0 <= j < ts.len() ==> #[trigger] keeps_window(buf, placed_tokens(ts, 1)[j]);
        // Enter the byte into the rolling hash and the window.
        curr_hash.add_char(buffer[buffer_idx]);
        if buffer_idx < MAX_MATCH_LEN - 1 {
            true_matches.dict[LZ_DICT_SIZE + buffer_idx] = buffer[buffer_idx];
        }
        proof {
            lemma_mask(buffer_idx);
            lemma_mask((buffer_idx - 2) as usize);
        }
        true_matches.dict[buffer_idx & LZ_DICT_SIZE_MASK] = buffer[buffer_idx];
        if buffer_idx >= 2 {
            // Enter the trigram that ends here into its hash chain.
            if true_matches.hash[curr_hash.hash as usize] != (buffer_idx - 2) & LZ_DICT_SIZE_MASK {
                true_matches.next[(buffer_idx - 2) & LZ_DICT_SIZE_MASK] =
                    true_matches.hash[curr_hash.hash as usize];
                true_matches.hash[curr_hash.hash as usize] = (buffer_idx - 2) & LZ_DICT_SIZE_MASK;
            }
        }
        proof {
            if prefix_keeps && pos + MAX_MATCH_LEN < LZ_DICT_SIZE {
                assert(window_true(true_matches, buf, pos));
            }
        }
        let matches = find_match_buffer_rolling(&buffer, &buffer_idx, &mut true_matches);
        match matches {
            Some(current_match_val) => {
                let (distance, length) = current_match_val;
                let mut len_arr = convert_length(length);
                let mut dist_arr = convert_dist(distance);
                compressed.append(&mut len_arr);
                compressed.append(&mut dist_arr);
                proof {
                    let t = Lz77Token::Match(length, distance);
                    lemma_push_token(ts, t, buf, 1);
                    assert(compressed@ =~= c0 + encode_tokens(ts) + token_bits(t));
                    ts = ts.push(t);
                    assert(new_token_ok(buf, placed_tokens(ts, 1)[ts.len() - 1]));
                }
                buffer_idx += length;
            },
            None => {
                let curr_byte = buffer[buffer_idx];
                let mut bool_arr = reverse_huffman(curr_byte);
                compressed.append(&mut bool_arr);
                proof {
                    let t = Lz77Token::Literal(curr_byte);
                    lemma_push_token(ts, t, buf, 1);
                    ts = ts.push(t);
                    assert(new_token_ok(buf, placed_tokens(ts, 1)[ts.len() - 1]));
                }
                buffer_idx += 1;
            },
        }
        proof {
            let pl0 = placed_tokens(ts0, 1);
            let pl = placed_tokens(ts, 1);
            assert(pl == pl0.push((ts.last(), pos)));
            assert(ts.last() == (match matches {
                Some((d, l)) => Lz77Token::Match(l, d),
                None => Lz77Token::Literal(buf[pos]),
            }));
            assert forall|i: int|
                0 <= i < pl.len() && pl[i].1 + MAX_MATCH_LEN < LZ_DICT_SIZE && (forall|j: int|
                    0 <= j < i ==> #[trigger] keeps_window(buf, pl[j])) implies #[trigger] exact_token(buf, pl[i]) by {
                if i < pl0.len() {
                    assert(pl[i] == pl0[i]);
                    assert forall|j: int| 0 <= j < i implies #[trigger] keeps_window(buf, pl0[j]) by {
                        assert(pl[j] == pl0[j]);
                    }
                } else {
                    assert forall|j: int| 0 <= j < ts0.len() implies #[trigger] keeps_window(buf, pl0[j]) by {
                        assert(pl[j] == pl0[j]);
                    }
                    assert(prefix_keeps);
                }
            }
            if (forall|j: int| 0 <= j < ts.len() ==> #[trigger] keeps_window(buf, pl[j])) && buffer_idx
                + MAX_MATCH_LEN < LZ_DICT_SIZE {
                assert forall|j: int| 0 <= j < ts0.len() implies #[trigger] keeps_window(buf, pl0[j]) by {
                    assert(pl[j] == pl0[j]);
                }
                assert(prefix_keeps);
                assert(keeps_window(buf, pl[ts0.len() as int]));
            }
        }
    }
    assert(lz77_parse(ts, seq![0u8] + zodie@, lz77_start(zodie@)));
}

} // verus!
