//! An LZ77 compressor whose hash chains are vectors of positions in a `HashMap`, keyed by
//! the three bytes they start, packed into a `u32`; and the DEFLATE stream built from it.
use vstd::prelude::*;
use std::collections::HashMap;
use crate::block::{
    Lz77Token, token_bits, encode_tokens, tokens_end, lz77_parse, fixed_block, zero_pad, pack_lsb,
    pack_bits, placed_tokens, lz77_sound, lemma_parse_behind_zero, lemma_fixed_block_roundtrip,
};
use crate::inflate::{inflate_blocks, lsb_stream};
use crate::encode::{convert_length, convert_dist, reverse_huffman};
use crate::huffman::{greedy_at, trigram_at, chain_match_ok, in_window, seen_before, run_len, lemma_run_len, match_cap, chain_run};

verus! {

broadcast use vstd::std_specs::hash::group_hash_axioms;

/// The key of three bytes: the bytes as the digits of a base-256 number.
pub open spec fn key_spec(t: (u8, u8, u8)) -> u32 {
    ((t.0 as u32) << 16u32) | ((t.1 as u32) << 8u32) | (t.2 as u32)
}

/// Different trigrams get different keys.
proof fn lemma_key_injective(a: (u8, u8, u8), b: (u8, u8, u8))
    ensures
        key_spec(a) == key_spec(b) ==> a == b,
{
    let (a0, a1, a2) = a;
    let (b0, b1, b2) = b;
    assert(((((a0 as u32) << 16u32) | ((a1 as u32) << 8u32) | (a2 as u32)) == (((b0 as u32) << 16u32) | ((
    b1 as u32) << 8u32) | (b2 as u32))) ==> a0 == b0 && a1 == b1 && a2 == b2) by (bit_vector);
}

/// The key of three bytes.
fn trigram_key(a: u8, b: u8, c: u8) -> (k: u32)
    ensures
        k == key_spec((a, b, c)),
{
    ((a as u32) << 16u32) | ((b as u32) << 8u32) | (c as u32)
}

/// Every position listed under a key starts, within `buf`, the trigram with that key.
pub open spec fn vec_chains_ok(m: Map<u32, Vec<usize>>, buf: Seq<u8>) -> bool {
    forall|k: u32, i: int|
        #![trigger m[k]@[i]]
        m.dom().contains(k) && 0 <= i < m[k]@.len() ==> m[k]@[i] + 2 < buf.len() && key_spec(
            trigram_at(buf, m[k]@[i] as int),
        ) == k
}

/// Whether `v` holds `x`.
fn vec_contains(v: &Vec<usize>, x: usize) -> (found: bool)
    ensures
        found == v@.contains(x),
{
    let mut i: usize = 0;
    while i < v.len()
        invariant
            i <= v@.len(),
            forall|j: int| 0 <= j < i ==> v@[j] != x,
        decreases v@.len() - i,
    {
        if v[i] == x {
            assert(v@[i as int] == x);
            return true;
        }
        i += 1;
    }
    false
}

/// Takes the list of `key`, an empty one where there is none, and puts `pos` at its front
/// unless it already holds `check`.
fn add_to_chain(map: &mut HashMap<u32, Vec<usize>>, key: u32, check: usize, pos: usize)
    ensures
        ({
            let old_list = if old(map)@.contains_key(key) {
                old(map)@[key]@
            } else {
                Seq::empty()
            };
            &&& final(map)@.contains_key(key)
            &&& final(map)@[key]@ == (if old_list.contains(check) {
                old_list
            } else {
                seq![pos] + old_list
            })
            &&& forall|k: u32| k != key ==> (#[trigger] final(map)@.contains_key(k) == old(map)@.contains_key(k))
            &&& forall|k: u32| k != key && old(map)@.contains_key(k) ==> #[trigger] final(map)@[k] == old(map)@[k]
        }),
        forall|k: u32, p: usize| #[trigger] list_of(old(map)@, k).contains(p) ==> list_of(final(map)@, k).contains(p),
        check == pos ==> list_of(final(map)@, key).contains(pos),
{
    let ghost m = map@;
    let mut val: Vec<usize> = match map.get(&key) {
        Some(v) => v.clone(),
        None => Vec::new(),
    };
    let ghost old_list = val@;
    assert(old_list == list_of(m, key));
    if !vec_contains(&val, check) {
        val.insert(0, pos);
        assert(val@ =~= seq![pos] + old_list);
    }
    let ghost new_list = val@;
    map.insert(key, val);
    proof {
        assert(list_of(map@, key) == new_list);
        assert forall|k: u32, p: usize| #[trigger] list_of(m, k).contains(p) implies list_of(map@, k).contains(p) by {
            if k == key {
                if !old_list.contains(check) {
                    lemma_contains_prepend(old_list, p, pos);
                }
            } else {
                assert(list_of(map@, k) == list_of(m, k));
            }
        }
        if check == pos && !old_list.contains(check) {
            assert(new_list[0] == pos);
        }
    }
}

/// Adding a position under the key of its own trigram keeps the chains right.
proof fn lemma_add_to_chain(
    m: Map<u32, Vec<usize>>,
    m2: Map<u32, Vec<usize>>,
    buf: Seq<u8>,
    key: u32,
    check: usize,
    pos: usize,
)
    requires
        vec_chains_ok(m, buf),
        pos + 2 < buf.len(),
        key_spec(trigram_at(buf, pos as int)) == key,
        ({
            let old_list = if m.contains_key(key) {
                m[key]@
            } else {
                Seq::empty()
            };
            &&& m2.contains_key(key)
            &&& m2[key]@ == (if old_list.contains(check) {
                old_list
            } else {
                seq![pos] + old_list
            })
            &&& forall|k: u32| k != key ==> (#[trigger] m2.contains_key(k) == m.contains_key(k))
            &&& forall|k: u32| k != key && m.contains_key(k) ==> #[trigger] m2[k] == m[k]
        }),
    ensures
        vec_chains_ok(m2, buf),
{
    let old_list = if m.contains_key(key) {
        m[key]@
    } else {
        Seq::empty()
    };
    assert forall|k: u32, i: int| m2.dom().contains(k) && 0 <= i < m2[k]@.len() implies m2[k]@[i] + 2
        < buf.len() && key_spec(trigram_at(buf, m2[k]@[i] as int)) == k by {
        if k == key {
            if !old_list.contains(check) && i > 0 {
                assert(m2[k]@[i] == old_list[i - 1]);
                assert(m[k]@[i - 1] == old_list[i - 1]);
            } else if old_list.contains(check) {
                assert(m[k]@[i] == old_list[i]);
            }
        } else {
            assert(m2[k] == m[k]);
        }
    }
}

/// The short-distance candidates at `buffer_idx`, by key: the three bytes before it, the two
/// bytes before it with the first repeated, and a run of the byte before it; a later one
/// replaces an earlier one with the same key.
pub open spec fn temp_key_spec(buf: Seq<u8>, idx: int) -> Map<u32, usize> {
    let m0 = Map::<u32, usize>::empty();
    let m1 = if idx >= 3 {
        m0.insert(key_spec((buf[idx - 3], buf[idx - 2], buf[idx - 1])), (idx - 3) as usize)
    } else {
        m0
    };
    let m2 = if idx >= 2 {
        m1.insert(key_spec((buf[idx - 2], buf[idx - 1], buf[idx - 2])), (idx - 2) as usize)
    } else {
        m1
    };
    if idx >= 1 {
        m2.insert(key_spec((buf[idx - 1], buf[idx - 1], buf[idx - 1])), (idx - 1) as usize)
    } else {
        m2
    }
}

/// The short-distance candidates at `buffer_idx`.
fn _get_temp_matches_buffer(buffer_idx: usize, buffer: &Vec<u8>) -> (temp_matches: HashMap<u32, usize>)
    requires
        buffer_idx <= buffer.len(),
        buffer.len() <= i32::MAX,
    ensures
        temp_matches@ == temp_key_spec(buffer@, buffer_idx as int),
{
    let mut temp_matches: HashMap<u32, usize> = HashMap::new();
    if buffer_idx as i32 - 3 >= 0 {
        temp_matches.insert(
            trigram_key(buffer[buffer_idx - 3], buffer[buffer_idx - 2], buffer[buffer_idx - 1]),
            buffer_idx - 3,
        );
    }
    if buffer_idx as i32 - 2 >= 0 {
        temp_matches.insert(
            trigram_key(buffer[buffer_idx - 2], buffer[buffer_idx - 1], buffer[buffer_idx - 2]),
            buffer_idx - 2,
        );
    }
    if buffer_idx > 0 {
        temp_matches.insert(
            trigram_key(buffer[buffer_idx - 1], buffer[buffer_idx - 1], buffer[buffer_idx - 1]),
            buffer_idx - 1,
        );
    }
    assert(temp_matches@ =~= temp_key_spec(buffer@, buffer_idx as int));
    temp_matches
}

/// Whether the short-distance candidate recorded under the key of the three bytes at `idx`
/// agrees with the byte two past `idx`: then `find_match_buffer` takes a match from it.
pub open spec fn key_short_hit(buf: Seq<u8>, idx: int) -> bool {
    let m = temp_key_spec(buf, idx);
    let k = key_spec(trigram_at(buf, idx));
    &&& idx + 2 < buf.len()
    &&& m.contains_key(k)
    &&& buf[m[k] as int] == buf[idx + 2]
}

/// The list under `k`, empty where there is none.
pub open spec fn list_of(m: Map<u32, Vec<usize>>, k: u32) -> Seq<usize> {
    if m.contains_key(k) {
        m[k]@
    } else {
        Seq::empty()
    }
}

/// The position of the short-distance candidate recorded under the key of the three bytes at
/// `idx`.
pub open spec fn key_short_start(buf: Seq<u8>, idx: int) -> int {
    temp_key_spec(buf, idx)[key_spec(trigram_at(buf, idx))] as int
}

/// The length the search gives the short-distance candidate: two bytes, and then as many
/// bytes from `idx + 2` on as equal those from the candidate on, up to `match_cap`.
pub open spec fn key_short_len(buf: Seq<u8>, idx: int) -> int {
    2 + run_len(buf, key_short_start(buf, idx), idx + 2, match_cap(buf.len() as int, idx) - 2)
}

/// The pair `(d, l)` is one the search can give at `idx`: the short-distance candidate with
/// its length, or a position within the window that starts the same three bytes, with the
/// length measured for it, all of whose bytes repeat.
pub open spec fn key_chosen_pair(buf: Seq<u8>, idx: int, d: int, l: int) -> bool {
    ||| key_short_hit(buf, idx) && d == idx - key_short_start(buf, idx) && l == key_short_len(buf, idx)
    ||| {
        &&& in_window(idx - d, idx)
        &&& trigram_at(buf, idx - d) == trigram_at(buf, idx)
        &&& l == chain_run(buf, idx - d, idx)
        &&& forall|k: int| 0 <= k < l ==> #[trigger] buf[idx - d + k] == buf[idx + k]
    }
}

/// A value held by a sequence is held after something is put in front of it.
proof fn lemma_contains_prepend(l: Seq<usize>, x: usize, pos: usize)
    requires
        l.contains(x),
    ensures
        (seq![pos] + l).contains(x),
{
    let i = choose|i: int| 0 <= i < l.len() && l[i] == x;
    assert((seq![pos] + l)[i + 1] == x);
}

/// Looks for the longest earlier occurrence of the bytes at `buffer_idx`: first among the
/// short-distance candidates, then among the positions listed under the key of the next
/// three bytes, skipping those at or after `buffer_idx` and those more than 32768 bytes
/// back. Positions met while comparing are added to the chains. Returns
/// `(distance, length)`: the short-distance candidate's, or a listed position's that
/// measures longer; no listed position within the window measures longer than the result.
fn find_match_buffer(buffer: &Vec<u8>, buffer_idx: &usize, true_matches: &mut HashMap<u32, Vec<usize>>) -> (found:
    Option<(usize, usize)>)
    requires
        *buffer_idx <= buffer.len(),
        buffer.len() <= i32::MAX,
        vec_chains_ok(old(true_matches)@, buffer@),
    ensures
        vec_chains_ok(final(true_matches)@, buffer@),
        match found {
            None => true,
            Some((d, l)) => chain_match_ok(buffer@, *buffer_idx as int, d as int, l as int) && key_chosen_pair(
                buffer@,
                *buffer_idx as int,
                d as int,
                l as int,
            ),
        },
        *buffer_idx + 2 >= buffer.len() ==> found is None && final(true_matches)@ == old(true_matches)@,
        forall|k: u32, p: usize| #[trigger]
            list_of(old(true_matches)@, k).contains(p) ==> list_of(final(true_matches)@, k).contains(p),
        key_short_hit(buffer@, *buffer_idx as int) ==> found is Some && found.unwrap().1 >= key_short_len(
            buffer@,
            *buffer_idx as int,
        ),
        forall|p: usize|
            *buffer_idx + 2 < buffer.len() && #[trigger] list_of(
                old(true_matches)@,
                key_spec(trigram_at(buffer@, *buffer_idx as int)),
            ).contains(p) && in_window(p as int, *buffer_idx as int) ==> found is Some && found.unwrap().1
                >= chain_run(buffer@, p as int, *buffer_idx as int),
        found is Some ==> key_short_hit(buffer@, *buffer_idx as int) || seen_before(buffer@, *buffer_idx as int),
{
    let ghost buf = buffer@;
    let ghost idx = *buffer_idx as int;
    let ghost len = buffer.len() as int;
    let ghost cap = match_cap(len, idx);
    let mut max_len: usize = 0;
    let mut curr_dist: usize = 0;
    if *buffer_idx + 2 >= buffer.len() {
        let curr_option = if max_len != 0 {
            Some((curr_dist, max_len))
        } else {
            None
        };
        return curr_option;
    }
    let temp_matches = _get_temp_matches_buffer(*buffer_idx, buffer);
    let next_3_bytes = (buffer[*buffer_idx], buffer[*buffer_idx + 1], buffer[*buffer_idx + 2]);
    let next_key = trigram_key(next_3_bytes.0, next_3_bytes.1, next_3_bytes.2);
    assert(next_3_bytes == trigram_at(buf, idx));
    let ghost m_old = true_matches@;
    match temp_matches.get(&next_key) {
        Some(index) => {
            let mut found_idx = *index;
            let start_match_idx = found_idx;
            let mut temp_buffer_idx = *buffer_idx + 2;
            assert(1 <= idx - start_match_idx <= 3);
            loop
                invariant_except_break
                    next_key == key_spec(trigram_at(buf, idx)),
                    temp_key_spec(buf, idx).contains_key(next_key),
                    start_match_idx == key_short_start(buf, idx),
                    cap == match_cap(len, idx),
                    run_len(buf, start_match_idx as int, idx + 2, cap - 2) == (temp_buffer_idx - idx - 2) + run_len(
                        buf,
                        found_idx as int,
                        temp_buffer_idx as int,
                        cap - 2 - (temp_buffer_idx - idx - 2),
                    ),
                    (max_len != 0) == (temp_buffer_idx > idx + 2),
                    max_len != 0 ==> max_len == temp_buffer_idx - idx && curr_dist == idx - start_match_idx,
                    temp_buffer_idx > idx + 2 ==> key_short_hit(buf, idx),
                    forall|p: usize| #[trigger]
                        list_of(m_old, next_key).contains(p) ==> list_of(true_matches@, next_key).contains(p),
                    forall|k: u32, p: usize| #[trigger]
                        list_of(m_old, k).contains(p) ==> list_of(true_matches@, k).contains(p),
                    buf == buffer@,
                    len == buffer.len(),
                    idx == *buffer_idx,
                    idx + 2 < len,
                    1 <= idx - start_match_idx <= 3,
                    idx + 2 <= temp_buffer_idx <= len,
                    temp_buffer_idx - idx <= 258,
                    found_idx == start_match_idx + (temp_buffer_idx - idx - 2),
                    vec_chains_ok(true_matches@, buf),
                    max_len == 0 || (max_len == temp_buffer_idx - idx && chain_match_ok(
                        buf,
                        idx,
                        curr_dist as int,
                        max_len as int,
                    )),
                ensures
                    vec_chains_ok(true_matches@, buf),
                    max_len == 0 || chain_match_ok(buf, idx, curr_dist as int, max_len as int),
                    forall|k: u32, p: usize| #[trigger]
                        list_of(m_old, k).contains(p) ==> list_of(true_matches@, k).contains(p),
                    (max_len != 0) == key_short_hit(buf, idx),
                    max_len != 0 ==> max_len == key_short_len(buf, idx) && curr_dist == idx - key_short_start(
                        buf,
                        idx,
                    ),
                    forall|p: usize| #[trigger]
                        list_of(m_old, next_key).contains(p) ==> list_of(true_matches@, next_key).contains(p),
                    forall|k: u32, p: usize| #[trigger]
                        list_of(m_old, k).contains(p) ==> list_of(true_matches@, k).contains(p),
                decreases len - temp_buffer_idx,
            {
                if temp_buffer_idx >= 3 {
                    let key = trigram_key(
                        buffer[temp_buffer_idx - 3],
                        buffer[temp_buffer_idx - 2],
                        buffer[temp_buffer_idx - 1],
                    );
                    let ghost m = true_matches@;
                    add_to_chain(true_matches, key, temp_buffer_idx - 2, temp_buffer_idx - 3);
                    proof {
                        lemma_add_to_chain(
                            m,
                            true_matches@,
                            buf,
                            key,
                            (temp_buffer_idx - 2) as usize,
                            (temp_buffer_idx - 3) as usize,
                        );
                        assert forall|p: usize| #[trigger]
                            list_of(m_old, next_key).contains(p) implies list_of(true_matches@, next_key).contains(
                            p,
                        ) by {
                            if key == next_key && !list_of(m, next_key).contains((temp_buffer_idx - 2) as usize) {
                                lemma_contains_prepend(list_of(m, next_key), p, (temp_buffer_idx - 3) as usize);
                            }
                        }
                    }
                }
                if temp_buffer_idx < buffer.len() {
                    let next_el = buffer[found_idx];
                    if next_el != buffer[temp_buffer_idx] || (temp_buffer_idx - *buffer_idx >= 258) {
                        break;
                    }
                    temp_buffer_idx += 1;
                    found_idx += 1;
                } else {
                    break;
                }
                if temp_buffer_idx - *buffer_idx >= max_len {
                    curr_dist = *buffer_idx - start_match_idx;
                    max_len = temp_buffer_idx - *buffer_idx;
                }
            }
        },
        None => {},
    }
    assert((max_len != 0) == key_short_hit(buf, idx));
    let ghost m_snap = true_matches@;
    assert(forall|p: usize| #[trigger]
        list_of(m_old, next_key).contains(p) ==> list_of(m_snap, next_key).contains(p));
    match true_matches.get(&next_key) {
        Some(listed) => {
            let indices = listed.clone();
            assert(indices@ == list_of(m_snap, next_key));
            let mut n: usize = 0;
            while n < indices.len()
                invariant_except_break
                    forall|j: int|
                        0 <= j < n && in_window(#[trigger] indices@[j] as int, idx) ==> max_len >= chain_run(
                            buf,
                            indices@[j] as int,
                            idx,
                        ),
                    max_len == 0 || key_chosen_pair(buf, idx, curr_dist as int, max_len as int),
                    max_len != 0 ==> key_short_hit(buf, idx) || seen_before(buf, idx),
                    key_short_hit(buf, idx) ==> max_len >= key_short_len(buf, idx) && max_len != 0,
                    cap == match_cap(len, idx),
                    buf == buffer@,
                    len == buffer.len(),
                    idx == *buffer_idx,
                    idx + 2 < len,
                    len <= i32::MAX,
                    n <= indices@.len(),
                    forall|j: int| 0 <= j < indices@.len() ==> #[trigger] indices@[j] + 2 < len && key_spec(
                        trigram_at(buf, indices@[j] as int),
                    ) == next_key,
                    next_key == key_spec(trigram_at(buf, idx)),
                    vec_chains_ok(true_matches@, buf),
                    max_len == 0 || chain_match_ok(buf, idx, curr_dist as int, max_len as int),
                    forall|k: u32, p: usize| #[trigger]
                        list_of(m_old, k).contains(p) ==> list_of(true_matches@, k).contains(p),
                ensures
                    vec_chains_ok(true_matches@, buf),
                    max_len == 0 || chain_match_ok(buf, idx, curr_dist as int, max_len as int),
                    forall|k: u32, p: usize| #[trigger]
                        list_of(m_old, k).contains(p) ==> list_of(true_matches@, k).contains(p),
                    max_len == 0 || key_chosen_pair(buf, idx, curr_dist as int, max_len as int),
                    max_len != 0 ==> key_short_hit(buf, idx) || seen_before(buf, idx),
                    key_short_hit(buf, idx) ==> max_len >= key_short_len(buf, idx) && max_len != 0,
                    forall|j: int|
                        0 <= j < indices@.len() && in_window(#[trigger] indices@[j] as int, idx) ==> max_len
                            >= chain_run(buf, indices@[j] as int, idx),
                decreases indices@.len() - n,
            {
                let index = indices[n];
                n += 1;
                if *buffer_idx <= index || *buffer_idx - index > 32768 {
                    continue;
                }
                let mut found_idx = index;
                let start_match_idx = found_idx;
                let mut temp_buffer_idx = *buffer_idx;
                if max_len == 258 {
                    proof {
                        assert forall|j: int|
                            0 <= j < indices@.len() && in_window(#[trigger] indices@[j] as int, idx) implies max_len
                            >= chain_run(buf, indices@[j] as int, idx) by {
                            lemma_run_len(buf, indices@[j] as int, idx, cap);
                        }
                    }
                    break;
                }
                proof {
                    lemma_key_injective(trigram_at(buf, index as int), trigram_at(buf, idx));
                }
                loop
                    invariant_except_break
                        buf == buffer@,
                        len == buffer.len(),
                        idx == *buffer_idx,
                        idx + 2 < len,
                        cap == match_cap(len, idx),
                        start_match_idx < idx,
                        start_match_idx + 2 < len,
                        trigram_at(buf, start_match_idx as int) == trigram_at(buf, idx),
                        idx <= temp_buffer_idx <= len,
                        temp_buffer_idx - idx <= 258,
                        found_idx == start_match_idx + (temp_buffer_idx - idx),
                        run_len(buf, start_match_idx as int, idx, cap) == (temp_buffer_idx - idx) + run_len(
                            buf,
                            found_idx as int,
                            temp_buffer_idx as int,
                            cap - (temp_buffer_idx - idx),
                        ),
                        vec_chains_ok(true_matches@, buf),
                        forall|k: u32, p: usize| #[trigger]
                            list_of(m_old, k).contains(p) ==> list_of(true_matches@, k).contains(p),
                    ensures
                        idx + 3 <= temp_buffer_idx <= len,
                        temp_buffer_idx - idx <= 258,
                        temp_buffer_idx - idx == chain_run(buf, start_match_idx as int, idx),
                        vec_chains_ok(true_matches@, buf),
                        forall|k: u32, p: usize| #[trigger]
                            list_of(m_old, k).contains(p) ==> list_of(true_matches@, k).contains(p),
                    decreases len - temp_buffer_idx,
                {
                    if temp_buffer_idx >= buffer.len() {
                        break;
                    }
                    if buffer[found_idx] != buffer[temp_buffer_idx] || (temp_buffer_idx - *buffer_idx >= 258) {
                        break;
                    }
                    if temp_buffer_idx >= 2 {
                        let key = trigram_key(
                            buffer[temp_buffer_idx - 2],
                            buffer[temp_buffer_idx - 1],
                            buffer[temp_buffer_idx],
                        );
                        let ghost m = true_matches@;
                        add_to_chain(true_matches, key, temp_buffer_idx - 2, temp_buffer_idx - 2);
                        proof {
                            lemma_add_to_chain(
                                m,
                                true_matches@,
                                buf,
                                key,
                                (temp_buffer_idx - 2) as usize,
                                (temp_buffer_idx - 2) as usize,
                            );
                        }
                    }
                    temp_buffer_idx += 1;
                    found_idx += 1;
                }
                proof {
                    lemma_run_len(buf, start_match_idx as int, idx, cap);
                }
                if temp_buffer_idx - *buffer_idx > max_len {
                    curr_dist = *buffer_idx - start_match_idx;
                    max_len = temp_buffer_idx - *buffer_idx;
                    assert(in_window(start_match_idx as int, idx));
                    assert(idx - curr_dist == start_match_idx);
                }
            }
            proof {
                assert forall|p: usize|
                    #[trigger] list_of(m_old, next_key).contains(p) && in_window(p as int, idx) implies max_len
                    >= chain_run(buf, p as int, idx) by {
                    assert(list_of(m_snap, next_key).contains(p));
                    let i = choose|i: int| 0 <= i < indices@.len() && indices@[i] == p;
                    assert(in_window(indices@[i] as int, idx));
                }
            }
        },
        None => {},
    }
    proof {
        assert forall|p: usize|
            #[trigger] list_of(m_old, next_key).contains(p) && in_window(p as int, idx) implies max_len >= 3
            && max_len >= chain_run(buf, p as int, idx) by {
            let i = choose|i: int| 0 <= i < m_old[next_key]@.len() && m_old[next_key]@[i] == p;
            lemma_key_injective(trigram_at(buf, p as int), trigram_at(buf, idx));
            lemma_run_len(buf, p as int, idx, cap);
        }
    }
    let curr_option = if max_len != 0 {
        Some((curr_dist, max_len))
    } else {
        None
    };
    curr_option
}

/// A token that `lz77_compression` may write where it stands: a literal only where the
/// short-distance candidate gives no match, and a match that the search can give there.
pub open spec fn hm_token_ok(buf: Seq<u8>, tp: (Lz77Token, int)) -> bool {
    match tp.0 {
        Lz77Token::Literal(_) => !key_short_hit(buf, tp.1),
        Lz77Token::Match(l, d) => d <= 32768 && key_chosen_pair(buf, tp.1, d as int, l as int),
    }
}

/// Compresses `buffer` with LZ77, the hash chains kept as vectors in a `HashMap`, and appends
/// the fixed-Huffman codes of its tokens to `compressed`: literals, and matches of 3 to 258
/// bytes reaching back 1 to 32768 bytes. Data of fewer than three bytes is written as
/// literals.
pub fn lz77_compression(buffer: Vec<u8>, compressed: &mut Vec<bool>)
    requires
        buffer.len() <= i32::MAX,
    ensures
        exists|ts: Seq<Lz77Token>|
            {
                &&& #[trigger] lz77_parse(ts, buffer@, 0)
                &&& tokens_end(ts, 0) == buffer.len()
                &&& final(compressed)@ == old(compressed)@ + encode_tokens(ts)
                &&& forall|i: int| 0 <= i < ts.len() ==> #[trigger] hm_token_ok(buffer@, placed_tokens(ts, 0)[i])
                &&& forall|i: int, j: int|
                    0 <= j <= i < ts.len() ==> #[trigger] greedy_at(
                        buffer@,
                        placed_tokens(ts, 0)[j].1,
                        placed_tokens(ts, 0)[i],
                    )
            },
{
    let ghost c0 = compressed@;
    let ghost buf = buffer@;
    let mut true_matches: HashMap<u32, Vec<usize>> = HashMap::new();
    let ghost mut ts: Seq<Lz77Token> = Seq::empty();
    assert(placed_tokens(ts, 0).len() == 0);
    if buffer.len() < 3 {
        let mut k: usize = 0;
        while k < buffer.len()
            invariant
                buf == buffer@,
                k <= buffer.len(),
                lz77_parse(ts, buf, 0),
                tokens_end(ts, 0) == k,
                compressed@ == c0 + encode_tokens(ts),
                buffer.len() < 3,
                placed_tokens(ts, 0).len() == ts.len(),
                forall|i: int| 0 <= i < ts.len() ==> #[trigger] hm_token_ok(buf, placed_tokens(ts, 0)[i]),
                forall|i: int| 0 <= i < ts.len() ==> (#[trigger] placed_tokens(ts, 0)[i]).1 == i,
                ts.len() == k,
            decreases buffer.len() - k,
        {
            let num = buffer[k];
            let mut bits = reverse_huffman(num);
            compressed.append(&mut bits);
            proof {
                crate::huffman_new::lemma_push_token(ts, Lz77Token::Literal(num), buf, 0);
                let tsb = ts;
                ts = ts.push(Lz77Token::Literal(num));
                assert(placed_tokens(ts, 0) == placed_tokens(tsb, 0).push((Lz77Token::Literal(num), tokens_end(tsb, 0))));
                assert(placed_tokens(tsb, 0).len() == tsb.len());
                assert(tokens_end(tsb, 0) == k);
                assert forall|i: int| 0 <= i < ts.len() implies (#[trigger] placed_tokens(ts, 0)[i]).1 == i by {
                    if i < tsb.len() {
                        assert(placed_tokens(ts, 0)[i] == placed_tokens(tsb, 0)[i]);
                        assert(placed_tokens(tsb, 0)[i].1 == i);
                    } else {
                        assert(placed_tokens(ts, 0)[i] == (Lz77Token::Literal(num), tokens_end(tsb, 0)));
                    }
                }
                assert(hm_token_ok(buf, placed_tokens(ts, 0)[ts.len() - 1]));
            }
            k += 1;
        }
        assert(lz77_parse(ts, buffer@, 0));
        assert forall|i: int, j: int| 0 <= j <= i < ts.len() implies #[trigger] greedy_at(
            buffer@,
            placed_tokens(ts, 0)[j].1,
            placed_tokens(ts, 0)[i],
        ) by {
            assert(placed_tokens(ts, 0)[i].1 == i);
        }
        return;
    }
    let mut buffer_idx: usize = 0;
    while buffer_idx < buffer.len()
        invariant
            buf == buffer@,
            buffer.len() <= i32::MAX,
            buffer_idx <= buffer.len(),
            lz77_parse(ts, buf, 0),
            tokens_end(ts, 0) == buffer_idx,
            compressed@ == c0 + encode_tokens(ts),
            vec_chains_ok(true_matches@, buf),
            placed_tokens(ts, 0).len() == ts.len(),
            forall|i: int| 0 <= i < ts.len() ==> #[trigger] hm_token_ok(buf, placed_tokens(ts, 0)[i]),
            forall|i: int, j: int|
                0 <= j <= i < ts.len() ==> #[trigger] greedy_at(buf, placed_tokens(ts, 0)[j].1, placed_tokens(ts, 0)[i]),
            forall|j: int|
                0 <= j < ts.len() && #[trigger] placed_tokens(ts, 0)[j].1 >= 2 ==> list_of(
                    true_matches@,
                    key_spec(trigram_at(buf, placed_tokens(ts, 0)[j].1 - 2)),
                ).contains((placed_tokens(ts, 0)[j].1 - 2) as usize),
        decreases buffer.len() - buffer_idx,
    {
        let ghost ts0 = ts;
        let ghost pos = buffer_idx as int;
        let ghost m0 = true_matches@;
        if buffer_idx >= 2 {
            let key = trigram_key(buffer[buffer_idx - 2], buffer[buffer_idx - 1], buffer[buffer_idx]);
            let ghost m = true_matches@;
            add_to_chain(&mut true_matches, key, buffer_idx - 2, buffer_idx - 2);
            proof {
                lemma_add_to_chain(
                    m,
                    true_matches@,
                    buf,
                    key,
                    (buffer_idx - 2) as usize,
                    (buffer_idx - 2) as usize,
                );
            }
        }
        let ghost m1 = true_matches@;
        let matches = find_match_buffer(&buffer, &buffer_idx, &mut true_matches);
        let ghost m2 = true_matches@;
        match matches {
            Some(current_match_val) => {
                let (distance, length) = current_match_val;
                let mut len_arr = convert_length(length);
                let mut dist_arr = convert_dist(distance);
                compressed.append(&mut len_arr);
                compressed.append(&mut dist_arr);
                proof {
                    let t = Lz77Token::Match(length, distance);
                    crate::huffman_new::lemma_push_token(ts, t, buf, 0);
                    assert(compressed@ =~= c0 + encode_tokens(ts) + token_bits(t));
                    ts = ts.push(t);
                    assert(hm_token_ok(buf, placed_tokens(ts, 0)[ts.len() - 1]));
                }
                buffer_idx += length;
            },
            None => {
                let curr_byte = buffer[buffer_idx];
                let mut bool_arr = reverse_huffman(curr_byte);
                compressed.append(&mut bool_arr);
                proof {
                    let t = Lz77Token::Literal(curr_byte);
                    crate::huffman_new::lemma_push_token(ts, t, buf, 0);
                    ts = ts.push(t);
                    assert(hm_token_ok(buf, placed_tokens(ts, 0)[ts.len() - 1]));
                }
                buffer_idx += 1;
            },
        }
        proof {
            let pl0 = placed_tokens(ts0, 0);
            let pl = placed_tokens(ts, 0);
            assert(pl == pl0.push((ts.last(), pos)));
            assert(ts.last() == (match matches {
                Some((d, l)) => Lz77Token::Match(l, d),
                None => Lz77Token::Literal(buf[pos]),
            }));
            assert forall|j: int| 0 <= j < ts.len() && #[trigger] pl[j].1 >= 2 implies list_of(
                m1,
                key_spec(trigram_at(buf, pl[j].1 - 2)),
            ).contains((pl[j].1 - 2) as usize) by {
                if j < ts0.len() {
                    assert(pl[j] == pl0[j]);
                    assert(list_of(m0, key_spec(trigram_at(buf, pl0[j].1 - 2))).contains((pl0[j].1 - 2) as usize));
                }
            }
            assert forall|j: int| 0 <= j < ts.len() && #[trigger] pl[j].1 >= 2 implies list_of(
                m2,
                key_spec(trigram_at(buf, pl[j].1 - 2)),
            ).contains((pl[j].1 - 2) as usize) by {
                assert(list_of(m1, key_spec(trigram_at(buf, pl[j].1 - 2))).contains((pl[j].1 - 2) as usize));
            }
            assert forall|i: int, j: int| 0 <= j <= i < ts.len() implies #[trigger] greedy_at(buf, pl[j].1, pl[i]) by {
                if i < ts0.len() {
                    assert(pl[j] == pl0[j] && pl[i] == pl0[i]);
                    assert(greedy_at(buf, pl0[j].1, pl0[i]));
                } else {
                    let s = pl[j].1;
                    if s >= 2 && pos + 2 < buf.len() && in_window(s - 2, pos) && trigram_at(buf, s - 2)
                        == trigram_at(buf, pos) {
                        assert(list_of(m1, key_spec(trigram_at(buf, s - 2))).contains((s - 2) as usize));
                        assert(list_of(m1, key_spec(trigram_at(buf, pos))).contains((s - 2) as usize));
                    }
                }
            }
        }
    }
    assert(lz77_parse(ts, buffer@, 0));
}

/// Compresses `buffer` into a DEFLATE stream of one final fixed-Huffman block holding the
/// tokens of this module's `lz77_compression`, padded with zero bits to a whole byte. Where
/// all its matches are true back-references, the stream inflates back to `buffer`.
pub fn compress(buffer: Vec<u8>) -> (out: Vec<u8>)
    requires
        buffer.len() <= i32::MAX,
    ensures
        exists|ts: Seq<Lz77Token>|
            {
                &&& #[trigger] lz77_parse(ts, buffer@, 0)
                &&& tokens_end(ts, 0) == buffer.len()
                &&& out@ == pack_lsb(zero_pad(fixed_block(ts)))
                &&& forall|i: int| 0 <= i < ts.len() ==> #[trigger] hm_token_ok(buffer@, placed_tokens(ts, 0)[i])
                &&& forall|i: int, j: int|
                    0 <= j <= i < ts.len() ==> #[trigger] greedy_at(
                        buffer@,
                        placed_tokens(ts, 0)[j].1,
                        placed_tokens(ts, 0)[i],
                    )
                &&& lz77_sound(ts, seq![0u8] + buffer@, 1) ==> inflate_blocks(lsb_stream(out@), 0, Seq::empty())
                    == Some((buffer@, fixed_block(ts).len() as int))
            },
{
    let ghost data = buffer@;
    let mut all_bits: Vec<bool> = Vec::new();
    // BFINAL
    all_bits.push(true);
    // BTYPE
    all_bits.push(true);
    all_bits.push(false);
    let ghost hdr = all_bits@;
    lz77_compression(buffer, &mut all_bits);
    let ghost ts = choose|ts: Seq<Lz77Token>|
        {
            &&& #[trigger] lz77_parse(ts, data, 0)
            &&& tokens_end(ts, 0) == data.len()
            &&& all_bits@ == hdr + encode_tokens(ts)
            &&& forall|i: int| 0 <= i < ts.len() ==> #[trigger] hm_token_ok(data, placed_tokens(ts, 0)[i])
            &&& forall|i: int, j: int|
                0 <= j <= i < ts.len() ==> #[trigger] greedy_at(data, placed_tokens(ts, 0)[j].1, placed_tokens(ts, 0)[i])
        };
    let mut eob = vec![false, false, false, false, false, false, false];
    all_bits.append(&mut eob);
    assert(all_bits@ =~= fixed_block(ts));
    let ghost b0 = all_bits@;
    let additional_zeros = if all_bits.len() % 8 != 0 {
        8 - all_bits.len() % 8
    } else {
        0
    };
    let mut i: usize = 0;
    while i < additional_zeros
        invariant
            i <= additional_zeros,
            additional_zeros == ((8 - b0.len() % 8) % 8) as usize,
            all_bits@ =~= b0 + Seq::new(i as nat, |k: int| false),
        decreases additional_zeros - i,
    {
        all_bits.push(false);
        i += 1;
    }
    assert(all_bits@ =~= zero_pad(b0));
    let out = pack_bits(&all_bits);
    proof {
        if lz77_sound(ts, seq![0u8] + data, 1) {
            lemma_parse_behind_zero(ts, data);
            lemma_fixed_block_roundtrip(data, ts, Seq::new(((8 - b0.len() % 8) % 8) as nat, |i: int| false));
        }
    }
    out
}

} // verus!
