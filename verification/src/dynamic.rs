//! Decoding blocks compressed with dynamic Huffman codes: reading the code lengths,
//! building canonical decoding tables, and decoding with them.
use vstd::prelude::*;
use vstd::relations::{sorted_by, total_ordering};
use std::collections::HashMap;
use crate::bits::{be_value, le_value, msb_stream, lemma_msb_bits_window, lemma_le_value_bound, lemma_be_value_bound, get_n_bits_reverse, get_num, get_num_reverse};
use crate::AsciiNum;
use crate::fixed::{length_extra_bits, lower_bound_spec, distance_extra_bits, fixed_distance, lz77_copy, lemma_length_range, lemma_distance_range, get_lower_bound, decode_lz77};
use crate::{BITS_TO_READ, DISTANCE_CODES};
use vstd::arithmetic::power2::{pow2, lemma2_to64, lemma_pow2_strictly_increases};

verus! {

/// Ordering of code-length symbols.
pub open spec fn u16_le(a: u16, b: u16) -> bool {
    a <= b
}

/// The first `n` symbols of `alphabet`, in increasing order.
pub open spec fn sorted_prefix(alphabet: Seq<u16>, n: int) -> Seq<u16> {
    alphabet.take(n).sort_by(|a: u16, b: u16| u16_le(a, b))
}

/// The position of the last occurrence of `v` in `s` (-1 when absent).
pub open spec fn last_index(s: Seq<u16>, v: u16) -> int
    decreases s.len(),
{
    if s.len() == 0 {
        -1
    } else if s.last() == v {
        s.len() - 1
    } else {
        last_index(s.drop_last(), v)
    }
}

/// How many entries of `lens` equal `l`.
pub open spec fn count_len(lens: Seq<u16>, l: int) -> nat
    decreases lens.len(),
{
    if lens.len() == 0 {
        0
    } else {
        count_len(lens.drop_last(), l) + (if lens.last() == l { 1nat } else { 0nat })
    }
}

/// The code length of symbol `sym`: the length at its last position in `alphabet`.
pub open spec fn sym_len(alphabet: Seq<u16>, lens: Seq<u16>, sym: u16) -> int {
    lens[last_index(alphabet, sym)] as int
}

/// How many of `syms` have code length `l`.
pub open spec fn placed(syms: Seq<u16>, alphabet: Seq<u16>, lens: Seq<u16>, l: int) -> nat
    decreases syms.len(),
{
    if syms.len() == 0 {
        0
    } else {
        placed(syms.drop_last(), alphabet, lens, l) + (if sym_len(alphabet, lens, syms.last()) == l {
            1nat
        } else {
            0nat
        })
    }
}

/// `r` rows of 100000 unused (`u16::MAX`) entries.
pub open spec fn empty_rows(r: nat) -> Seq<Seq<u16>> {
    Seq::new(r, |i: int| Seq::new(100000, |j: int| u16::MAX))
}

/// A decoding table as rows of values.
pub open spec fn rows_view(t: Seq<[u16; 100000]>) -> Seq<Seq<u16>> {
    t.map_values(|a: [u16; 100000]| a@)
}

/// Assigns codes to `syms` in order: each symbol with a non-zero length `l` takes the next
/// free code of that length, `next[l]`, and is entered in row `l` at that code.
pub open spec fn place_symbols(
    syms: Seq<u16>,
    alphabet: Seq<u16>,
    lens: Seq<u16>,
    rows: Seq<Seq<u16>>,
    next: Seq<usize>,
) -> (Seq<Seq<u16>>, Seq<usize>)
    decreases syms.len(),
{
    if syms.len() == 0 {
        (rows, next)
    } else {
        let (r, nx) = place_symbols(syms.drop_last(), alphabet, lens, rows, next);
        let sym = syms.last();
        let l = sym_len(alphabet, lens, sym);
        if l == 0 {
            (r, nx)
        } else {
            (r.update(l, r[l].update(nx[l] as int, sym)), nx.update(l, (nx[l] + 1) as usize))
        }
    }
}

/// The symbols of `alphabet` that take part: the first `n` ones are pairwise distinct and
/// none of them occurs again later.
pub open spec fn alphabet_ok(alphabet: Seq<u16>, n: int) -> bool {
    forall|i: int, j: int| 0 <= i < n && 0 <= j < alphabet.len() && i != j ==> alphabet[i] != alphabet[j]
}

/// The largest entry of `lens` (0 for an empty sequence).
pub open spec fn max_len(lens: Seq<u16>) -> nat
    decreases lens.len(),
{
    if lens.len() == 0 {
        0
    } else {
        let m = max_len(lens.drop_last());
        if lens.last() > m { lens.last() as nat } else { m }
    }
}

/// Sorts a vector of symbols in increasing order (std's `sort`).
#[verifier::external_body]
fn sort_symbols(v: &mut Vec<u16>)
    ensures
        final(v)@.to_multiset() == old(v)@.to_multiset(),
        sorted_by(final(v)@, |a: u16, b: u16| u16_le(a, b)),
{
    v.sort();
}

/// Appending `x` moves the last occurrence of `x` to the new end and leaves the others.
pub proof fn lemma_last_index_push(s: Seq<u16>, x: u16, v: u16)
    ensures
        last_index(s.push(x), v) == if x == v { s.len() as int } else { last_index(s, v) },
{
    assert(s.push(x).drop_last() =~= s);
}

/// The last occurrence of `v` is an occurrence, and a value that occurs has one.
pub proof fn lemma_last_index_range(s: Seq<u16>, v: u16)
    ensures
        -1 <= last_index(s, v) < s.len(),
        last_index(s, v) >= 0 ==> s[last_index(s, v)] == v,
        s.contains(v) ==> last_index(s, v) >= 0,
    decreases s.len(),
{
    if s.len() > 0 {
        lemma_last_index_range(s.drop_last(), v);
        if s.contains(v) && s.last() != v {
            let j = choose|j: int| 0 <= j < s.len() && s[j] == v;
            assert(s.drop_last()[j] == v);
        }
    }
}

/// An occurrence with no later copy is the last occurrence.
pub proof fn lemma_last_index_unique(s: Seq<u16>, i: int)
    requires
        0 <= i < s.len(),
        forall|j: int| i < j < s.len() ==> s[j] != s[i],
    ensures
        last_index(s, s[i]) == i,
    decreases s.len(),
{
    if i < s.len() - 1 {
        lemma_last_index_unique(s.drop_last(), i);
    }
}

/// Removing the entry at `i` removes its contribution to the count.
pub proof fn lemma_placed_remove(t: Seq<u16>, i: int, alphabet: Seq<u16>, lens: Seq<u16>, l: int)
    requires
        0 <= i < t.len(),
    ensures
        placed(t, alphabet, lens, l) == placed(t.remove(i), alphabet, lens, l) + (if sym_len(
            alphabet,
            lens,
            t[i],
        ) == l {
            1nat
        } else {
            0nat
        }),
    decreases t.len(),
{
    if i == t.len() - 1 {
        assert(t.remove(i) =~= t.drop_last());
    } else {
        assert(t.remove(i).drop_last() =~= t.drop_last().remove(i));
        assert(t.remove(i).last() == t.last());
        lemma_placed_remove(t.drop_last(), i, alphabet, lens, l);
    }
}

/// Reordering the symbols does not change how many have a given length.
pub proof fn lemma_placed_perm(s: Seq<u16>, t: Seq<u16>, alphabet: Seq<u16>, lens: Seq<u16>, l: int)
    requires
        s.to_multiset() == t.to_multiset(),
    ensures
        placed(s, alphabet, lens, l) == placed(t, alphabet, lens, l),
    decreases s.len(),
{
    broadcast use vstd::multiset::group_multiset_axioms;
    broadcast use vstd::seq_lib::group_to_multiset_ensures;

    if s.len() == 0 {
        assert(t.to_multiset().len() == 0);
        assert(t.len() == 0);
    } else {
        let x = s.last();
        assert(s =~= s.drop_last().push(x));
        assert(s.to_multiset() == s.drop_last().to_multiset().insert(x));
        assert(t.to_multiset().count(x) > 0);
        assert(t.contains(x));
        let i = choose|i: int| 0 <= i < t.len() && t[i] == x;
        assert(t.remove(i).to_multiset() == t.to_multiset().remove(x));
        assert(s.drop_last().to_multiset() =~= t.remove(i).to_multiset());
        lemma_placed_perm(s.drop_last(), t.remove(i), alphabet, lens, l);
        lemma_placed_remove(t, i, alphabet, lens, l);
    }
}

/// Over the first `n` symbols of a well-formed alphabet, the symbols of length `l` are the
/// positions of `lens` holding `l`.
pub proof fn lemma_placed_prefix(alphabet: Seq<u16>, lens: Seq<u16>, k: int, l: int)
    requires
        0 <= k <= lens.len(),
        lens.len() <= alphabet.len(),
        alphabet_ok(alphabet, lens.len() as int),
    ensures
        placed(alphabet.take(k), alphabet, lens, l) == count_len(lens.take(k), l),
    decreases k,
{
    if k > 0 {
        lemma_placed_prefix(alphabet, lens, k - 1, l);
        assert(alphabet.take(k).drop_last() =~= alphabet.take(k - 1));
        assert(lens.take(k).drop_last() =~= lens.take(k - 1));
        lemma_last_index_unique(alphabet, k - 1);
    }
}

/// A prefix has at most as many symbols of each length as the whole sequence.
pub proof fn lemma_placed_take(syms: Seq<u16>, k: int, alphabet: Seq<u16>, lens: Seq<u16>, l: int)
    requires
        0 <= k <= syms.len(),
    ensures
        placed(syms.take(k), alphabet, lens, l) <= placed(syms, alphabet, lens, l),
    decreases syms.len() - k,
{
    if k < syms.len() {
        lemma_placed_take(syms, k + 1, alphabet, lens, l);
        assert(syms.take(k + 1).drop_last() =~= syms.take(k));
    } else {
        assert(syms.take(k) =~= syms);
    }
}

/// Every entry is at most the largest one.
pub proof fn lemma_max_len(lens: Seq<u16>)
    ensures
        forall|i: int| 0 <= i < lens.len() ==> lens[i] <= max_len(lens),
        max_len(lens) <= u16::MAX,
    decreases lens.len(),
{
    if lens.len() > 0 {
        lemma_max_len(lens.drop_last());
        assert forall|i: int| 0 <= i < lens.len() implies lens[i] <= max_len(lens) by {
            if i < lens.len() - 1 {
                assert(lens.drop_last()[i] == lens[i]);
            }
        }
    }
}

/// The sorted copy of the first `n` symbols is the spec's sorted prefix.
proof fn lemma_sorted_is_sorted_prefix(sorted: Seq<u16>, alphabet: Seq<u16>, n: int)
    requires
        0 <= n <= alphabet.len(),
        sorted.to_multiset() == alphabet.take(n).to_multiset(),
        sorted_by(sorted, |a: u16, b: u16| u16_le(a, b)),
    ensures
        sorted == sorted_prefix(alphabet, n),
{
    let leq = |a: u16, b: u16| u16_le(a, b);
    assert(total_ordering(leq));
    alphabet.take(n).lemma_sort_by_ensures(leq);
    vstd::seq_lib::lemma_sorted_unique(sorted, sorted_prefix(alphabet, n), leq);
}

/// Builds the canonical decoding table: row `l` maps each code of length `l` to its symbol
/// (`u16::MAX` marks unused codes). Symbols of `alphabet` are taken in increasing order; the
/// symbol at position `i` gets length `code_lengths[i]` and the next free code of that length
/// from `next_code`, which is advanced.
pub fn get_code_length_matrix(
    next_code: &mut Vec<usize>,
    alphabet: Vec<u16>,
    code_lengths: &Vec<u16>,
) -> (tree: Vec<[u16; 100000]>)
    requires
        code_lengths@.len() >= 1,
        alphabet@.len() >= code_lengths@.len(),
        alphabet_ok(alphabet@, code_lengths@.len() as int),
        forall|i: int|
            0 <= i < code_lengths@.len() && code_lengths@[i] != 0 ==> code_lengths@[i] < old(
                next_code,
            )@.len() && old(next_code)@[code_lengths@[i] as int] + count_len(
                code_lengths@,
                code_lengths@[i] as int,
            ) <= 100000,
    ensures
        (rows_view(tree@), final(next_code)@) == place_symbols(
            sorted_prefix(alphabet@, code_lengths@.len() as int),
            alphabet@,
            code_lengths@,
            empty_rows(max_len(code_lengths@) + 1),
            old(next_code)@,
        ),
{
    let ghost lens = code_lengths@;
    let ghost old_next = next_code@;
    let n = code_lengths.len();
    let mut max_code_length: usize = 0;
    let mut i: usize = 0;
    while i < n
        invariant
            i <= n,
            n == lens.len(),
            lens == code_lengths@,
            max_code_length == max_len(lens.take(i as int)),
        decreases n - i,
    {
        assert(lens.take(i + 1).drop_last() =~= lens.take(i as int));
        if code_lengths[i] as usize > max_code_length {
            max_code_length = code_lengths[i] as usize;
        }
        i += 1;
    }
    assert(lens.take(n as int) =~= lens);
    proof {
        lemma_max_len(lens);
    }
    let mut tree: Vec<[u16; 100000]> = Vec::with_capacity(max_code_length);
    let mut r: usize = 0;
    while r < max_code_length + 1
        invariant
            r <= max_code_length + 1,
            max_code_length <= u16::MAX,
            tree@.len() == r,
            forall|k: int| 0 <= k < r ==> (#[trigger] tree@[k])@ == Seq::new(100000, |j: int| u16::MAX),
        decreases max_code_length + 1 - r,
    {
        let row = [u16::MAX; 100000];
        assert(row@ =~= Seq::new(100000, |j: int| u16::MAX));
        tree.push(row);
        r += 1;
    }
    assert(rows_view(tree@) =~= empty_rows(max_code_length as nat + 1)) by {
        assert forall|k: int| 0 <= k < tree@.len() implies rows_view(tree@)[k] == empty_rows(
            max_code_length as nat + 1,
        )[k] by {
            assert(tree@[k]@ =~= empty_rows(max_code_length as nat + 1)[k]);
        }
    }
    let mut alphabet_sorted = alphabet.clone();
    alphabet_sorted.truncate(n);
    assert(alphabet_sorted@ =~= alphabet@.take(n as int));
    sort_symbols(&mut alphabet_sorted);
    proof {
        lemma_sorted_is_sorted_prefix(alphabet_sorted@, alphabet@, n as int);
    }
    let ghost sorted = alphabet_sorted@;
    // Where each symbol last occurs in the alphabet.
    let mut alphabet_to_idx_map: HashMap<u16, usize> = HashMap::new();
    let mut index: usize = 0;
    while index < alphabet.len()
        invariant
            index <= alphabet@.len(),
            forall|v: u16|
                #![trigger alphabet_to_idx_map@.contains_key(v)]
                alphabet_to_idx_map@.contains_key(v) == alphabet@.take(index as int).contains(v),
            forall|v: u16|
                #![trigger alphabet_to_idx_map@[v]]
                alphabet_to_idx_map@.contains_key(v) ==> alphabet_to_idx_map@[v] == last_index(
                    alphabet@.take(index as int),
                    v,
                ),
        decreases alphabet@.len() - index,
    {
        broadcast use vstd::std_specs::hash::group_hash_axioms;

        let value = alphabet[index];
        let ghost m0 = alphabet_to_idx_map@;
        alphabet_to_idx_map.insert(value, index);
        proof {
            assert(alphabet@.take(index + 1) =~= alphabet@.take(index as int).push(value));
            assert forall|v: u16| #![trigger alphabet_to_idx_map@.contains_key(v)]
                alphabet_to_idx_map@.contains_key(v) == alphabet@.take(index + 1).contains(v) by {
                assert(m0.contains_key(v) == alphabet@.take(index as int).contains(v));
                assert(alphabet_to_idx_map@ == m0.insert(value, index));
                assert(alphabet@.take(index + 1)[index as int] == value);
                if alphabet@.take(index as int).contains(v) {
                    let t = alphabet@.take(index as int);
                    let j = choose|j: int| 0 <= j < t.len() && t[j] == v;
                    assert(alphabet@.take(index + 1)[j] == v);
                }
                if alphabet@.take(index + 1).contains(v) && v != value {
                    let t = alphabet@.take(index + 1);
                    let j = choose|j: int| 0 <= j < t.len() && t[j] == v;
                    assert(alphabet@.take(index as int)[j] == v);
                }
            }
            assert forall|v: u16| #![trigger alphabet_to_idx_map@[v]] alphabet_to_idx_map@.contains_key(v)
                implies alphabet_to_idx_map@[v] == last_index(alphabet@.take(index + 1), v) by {
                if v != value {
                    assert(m0.contains_key(v));
                    assert(m0[v] == last_index(alphabet@.take(index as int), v));
                }
                lemma_last_index_push(alphabet@.take(index as int), value, v);
            }
        }
        index += 1;
    }
    assert(alphabet@.take(alphabet@.len() as int) =~= alphabet@);
    proof {
        assert forall|l: int| #[trigger] placed(sorted, alphabet@, lens, l) == count_len(lens, l) by {
            lemma_placed_perm(sorted, alphabet@.take(n as int), alphabet@, lens, l);
            lemma_placed_prefix(alphabet@, lens, n as int, l);
        }
        assert(sorted.take(0) =~= Seq::<u16>::empty());
        vstd::seq_lib::to_multiset_len(sorted);
        vstd::seq_lib::to_multiset_len(alphabet@.take(n as int));
    }
    let mut idx: usize = 0;
    while idx < alphabet_sorted.len()
        invariant
            idx <= n,
            n == lens.len(),
            lens == code_lengths@,
            alphabet_sorted@ == sorted,
            sorted == sorted_prefix(alphabet@, n as int),
            sorted.len() == n,
            sorted.to_multiset() == alphabet@.take(n as int).to_multiset(),
            alphabet@.len() >= n,
            alphabet_ok(alphabet@, n as int),
            forall|v: u16|
                #![trigger alphabet_to_idx_map@.contains_key(v)]
                alphabet_to_idx_map@.contains_key(v) == alphabet@.contains(v),
            forall|v: u16|
                #![trigger alphabet_to_idx_map@[v]]
                alphabet_to_idx_map@.contains_key(v) ==> alphabet_to_idx_map@[v] == last_index(alphabet@, v),
            forall|l: int| #[trigger] placed(sorted, alphabet@, lens, l) == count_len(lens, l),
            forall|i: int|
                0 <= i < lens.len() && lens[i] != 0 ==> lens[i] < old_next.len() && old_next[lens[i] as int]
                    + count_len(lens, lens[i] as int) <= 100000,
            forall|i: int| 0 <= i < lens.len() ==> lens[i] <= max_code_length,
            max_code_length == max_len(lens),
            tree@.len() == max_code_length + 1,
            next_code@.len() == old_next.len(),
            forall|l: int|
                0 < l < old_next.len() ==> #[trigger] next_code@[l] == old_next[l] + placed(
                    sorted.take(idx as int),
                    alphabet@,
                    lens,
                    l,
                ),
            (rows_view(tree@), next_code@) == place_symbols(
                sorted.take(idx as int),
                alphabet@,
                lens,
                empty_rows(max_code_length as nat + 1),
                old_next,
            ),
        decreases n - idx,
    {
        broadcast use vstd::std_specs::hash::group_hash_axioms;
        broadcast use vstd::seq_lib::group_to_multiset_ensures;

        let key = alphabet_sorted[idx];
        proof {
            assert(sorted.to_multiset().count(key) > 0);
            assert(alphabet@.take(n as int).contains(key));
            let j = choose|j: int| 0 <= j < n && alphabet@.take(n as int)[j] == key;
            assert(alphabet@[j] == key);
            lemma_last_index_unique(alphabet@, j);
            assert(alphabet@.contains(key));
            assert(sorted.take(idx + 1).drop_last() =~= sorted.take(idx as int));
            assert(sorted.take(idx + 1).last() == key);
            lemma_placed_take(sorted, idx + 1, alphabet@, lens, sym_len(alphabet@, lens, key));
        }
        let found = alphabet_to_idx_map.get(&key);
        match found {
            Some(found_index) => {
                let i = *found_index;
                let code_len = code_lengths[i];
                if code_len != 0 {
                    let c = next_code[code_len as usize];
                    tree[code_len as usize][c] = alphabet_sorted[idx];
                    next_code[code_len as usize] = c + 1;
                    proof {
                        let ghost prev = place_symbols(
                            sorted.take(idx as int),
                            alphabet@,
                            lens,
                            empty_rows(max_code_length as nat + 1),
                            old_next,
                        );
                        assert(rows_view(tree@) =~= prev.0.update(
                            code_len as int,
                            prev.0[code_len as int].update(c as int, key),
                        ));
                    }
                }
            },
            None => {
                proof {
                    assert(false);
                }
            },
        }
        idx += 1;
    }
    assert(sorted.take(n as int) =~= sorted);
    tree
}

/// The length of the next-code vector: one past the largest non-zero length (0 if none).
pub open spec fn next_len(lens: Seq<u16>) -> nat {
    if max_len(lens) == 0 {
        0
    } else {
        max_len(lens) + 1
    }
}

/// The number of codes of length `l` that count towards longer codes (length 0 counts none).
pub open spec fn bl_count(lens: Seq<u16>, l: int) -> nat {
    if l == 0 {
        0
    } else {
        count_len(lens, l)
    }
}

/// The smallest code of length `l` in the canonical Huffman code with these code lengths
/// (RFC 1951, 3.2.2, step 2).
pub open spec fn next_code_spec(lens: Seq<u16>, l: nat) -> nat
    decreases l,
{
    if l == 0 {
        0
    } else {
        2 * (next_code_spec(lens, (l - 1) as nat) + bl_count(lens, l - 1))
    }
}

/// The canonical first codes of lengths 0 up to the largest length.
pub open spec fn canonical_next(lens: Seq<u16>) -> Seq<usize> {
    Seq::new(next_len(lens), |l: int| next_code_spec(lens, l as nat) as usize)
}

/// The first codes never decrease with the length.
pub proof fn lemma_next_code_monotone(lens: Seq<u16>, a: nat, b: nat)
    requires
        a <= b,
    ensures
        next_code_spec(lens, a) <= next_code_spec(lens, b),
        a < b ==> 2 * (next_code_spec(lens, a) + bl_count(lens, a as int)) <= next_code_spec(lens, b),
    decreases b,
{
    if a < b {
        lemma_next_code_monotone(lens, a, (b - 1) as nat);
    }
}

/// The largest entry occurs, unless all entries are 0.
pub proof fn lemma_max_len_occurs(lens: Seq<u16>)
    ensures
        max_len(lens) == 0 || exists|i: int| 0 <= i < lens.len() && lens[i] == max_len(lens),
    decreases lens.len(),
{
    if lens.len() > 0 {
        lemma_max_len_occurs(lens.drop_last());
        if max_len(lens) != 0 && max_len(lens) != lens.last() {
            let i = choose|i: int| 0 <= i < lens.len() - 1 && lens.drop_last()[i] == max_len(lens);
            assert(lens[i] == max_len(lens));
        }
    }
}

/// Builds the canonical decoding table for `code_lengths`: the symbol at position `i` of
/// `alphabet` gets a code of length `code_lengths[i]` (0 for none); codes of one length are
/// consecutive in increasing symbol order, starting at the canonical first code.
pub fn convert_code_lengths_matrix(code_lengths: &Vec<u16>, alphabet: Vec<u16>) -> (tree: Vec<[u16; 100000]>)
    requires
        code_lengths@.len() >= 1,
        alphabet@.len() >= code_lengths@.len(),
        alphabet_ok(alphabet@, code_lengths@.len() as int),
        forall|i: int|
            0 <= i < code_lengths@.len() && code_lengths@[i] != 0 ==> next_code_spec(
                code_lengths@,
                code_lengths@[i] as nat,
            ) + count_len(code_lengths@, code_lengths@[i] as int) <= 100000,
    ensures
        rows_view(tree@) == place_symbols(
            sorted_prefix(alphabet@, code_lengths@.len() as int),
            alphabet@,
            code_lengths@,
            empty_rows(max_len(code_lengths@) + 1),
            canonical_next(code_lengths@),
        ).0,
{
    let ghost lens = code_lengths@;
    let n = code_lengths.len();
    // (1) Count the codes of each non-zero length.
    let mut max_len_plus: usize = 0;
    let mut i: usize = 0;
    while i < n
        invariant
            i <= n,
            n == lens.len(),
            lens == code_lengths@,
            max_len_plus == next_len(lens.take(i as int)),
        decreases n - i,
    {
        assert(lens.take(i + 1).drop_last() =~= lens.take(i as int));
        let cl = code_lengths[i];
        if cl != 0 && cl as usize + 1 > max_len_plus {
            max_len_plus = cl as usize + 1;
        }
        i += 1;
    }
    assert(lens.take(n as int) =~= lens);
    proof {
        lemma_max_len(lens);
        lemma_max_len_occurs(lens);
    }
    let mut bl_counts: Vec<usize> = vec![0usize; max_len_plus];
    let mut i: usize = 0;
    while i < n
        invariant
            i <= n,
            n == lens.len(),
            lens == code_lengths@,
            max_len_plus == next_len(lens),
            forall|k: int| 0 <= k < lens.len() ==> lens[k] <= max_len(lens),
            bl_counts@.len() == max_len_plus,
            forall|l: int| 0 <= l < max_len_plus ==> #[trigger] bl_counts@[l] == bl_count(lens.take(i as int), l),
        decreases n - i,
    {
        assert(lens.take(i + 1).drop_last() =~= lens.take(i as int));
        let cl = code_lengths[i];
        if cl != 0 {
            proof {
                assert(bl_counts@[cl as int] == count_len(lens.take(i as int), cl as int));
                lemma_count_len_bound(lens.take(i as int), cl as int);
            }
            let c = bl_counts[cl as usize];
            bl_counts[cl as usize] = c + 1;
        }
        i += 1;
    }
    // (2) The smallest code of each length.
    let mut code: usize = 0;
    let mut next_code: Vec<usize> = vec![0usize; max_len_plus];
    proof {
        if max_len(lens) > 0 {
            let j = choose|j: int| 0 <= j < lens.len() && lens[j] == max_len(lens);
            assert(next_code_spec(lens, max_len(lens)) <= 100000);
        }
    }
    let mut i: usize = 1;
    while i < max_len_plus
        invariant
            1 <= i,
            i <= max_len_plus || max_len_plus == 0,
            max_len_plus == next_len(lens),
            max_len_plus > 0 ==> next_code_spec(lens, max_len(lens)) <= 100000,
            bl_counts@.len() == max_len_plus,
            forall|l: int| 0 <= l < max_len_plus ==> #[trigger] bl_counts@[l] == bl_count(lens, l),
            code == next_code_spec(lens, (i - 1) as nat),
            next_code@.len() == max_len_plus,
            forall|l: int| 0 <= l < i && l < max_len_plus ==> #[trigger] next_code@[l] == next_code_spec(lens, l as nat),
            forall|l: int| i <= l < max_len_plus ==> #[trigger] next_code@[l] == 0,
        decreases max_len_plus - i,
    {
        proof {
            vstd::arithmetic::power2::lemma2_to64();
            lemma_next_code_monotone(lens, (i - 1) as nat, max_len(lens));
            lemma_next_code_monotone(lens, i as nat, max_len(lens));
            assert(bl_counts@[i - 1] == bl_count(lens, i - 1));
            assert(code + bl_counts@[i - 1] <= 50000);
            vstd::bits::lemma_usize_shl_is_mul((code + bl_counts@[i - 1]) as usize, 1);
        }
        code = (code + bl_counts[i - 1]) << 1;
        next_code[i] = code;
        i += 1;
    }
    proof {
        assert(next_code@ =~= canonical_next(lens));
        assert forall|k: int| 0 <= k < lens.len() && lens[k] != 0 implies lens[k] < next_code@.len()
            && next_code@[lens[k] as int] + count_len(lens, lens[k] as int) <= 100000 by {
            assert(next_code@[lens[k] as int] == next_code_spec(lens, lens[k] as nat));
        }
    }
    get_code_length_matrix(&mut next_code, alphabet, code_lengths)
}

/// A count is at most the length.
pub proof fn lemma_count_len_bound(lens: Seq<u16>, l: int)
    ensures
        count_len(lens, l) <= lens.len(),
    decreases lens.len(),
{
    if lens.len() > 0 {
        lemma_count_len_bound(lens.drop_last(), l);
    }
}

/// `n` three-bit fields starting at bit `idx`, each read least significant bit first.
pub open spec fn read_fields3(s: Seq<bool>, idx: int, n: int) -> Seq<u16> {
    Seq::new(n as nat, |i: int| le_value(s.subrange(idx + 3 * i, idx + 3 * i + 3)) as u16)
}

/// Reads the `hclen + 4` three-bit code lengths of the code-length code and moves `*idx`
/// past them.
pub fn get_code_length_code_matrix(buffer: &[u8], idx: &mut usize, hclen: u16) -> (code_lengths: Vec<u16>)
    requires
        buffer@.len() <= usize::MAX / 8,
        *old(idx) + 3 * (hclen + 4) <= 8 * buffer@.len(),
    ensures
        code_lengths@ == read_fields3(msb_stream(buffer@), *old(idx) as int, hclen + 4),
        *final(idx) == *old(idx) + 3 * (hclen + 4),
{
    let num_codes = hclen as usize + 4;
    let mut code_lengths: Vec<u16> = Vec::new();
    let ghost s = msb_stream(buffer@);
    let mut i: usize = 0;
    while i < num_codes
        invariant
            i <= num_codes,
            num_codes == hclen + 4,
            buffer@.len() <= usize::MAX / 8,
            *idx + 3 * num_codes <= 8 * buffer@.len(),
            s == msb_stream(buffer@),
            code_lengths@ =~= read_fields3(s, *idx as int, i as int),
        decreases num_codes - i,
    {
        proof {
            lemma_msb_bits_window(buffer@, *idx + i * 3, 3);
            lemma_le_value_bound(s.subrange(*idx + i * 3, *idx + i * 3 + 3));
            vstd::arithmetic::power2::lemma2_to64();
        }
        let num = get_num_reverse(&get_n_bits_reverse(buffer, *idx + i * 3, 3));
        code_lengths.push(num);
        i += 1;
    }
    *idx = *idx + 3 * num_codes;
    code_lengths
}

/// Looks for the shortest code at bit `idx`, trying lengths `n`, `n + 1`, ... up to 16: the
/// first row whose entry for the next bits (read most significant first) is used.
pub open spec fn table_search(t: Seq<Seq<u16>>, s: Seq<bool>, idx: int, n: int) -> Option<(u16, int)>
    decreases 17 - n,
{
    if n < 0 || n > 16 || n >= t.len() || idx < 0 || idx + n > s.len() {
        None
    } else {
        let v = t[n][be_value(s.subrange(idx, idx + n)) as int];
        if v != u16::MAX {
            Some((v, idx + n))
        } else {
            table_search(t, s, idx, n + 1)
        }
    }
}

/// The symbol the table gives for the code at bit `idx`, with the bit index after the code.
pub open spec fn table_decode(t: Seq<Seq<u16>>, s: Seq<bool>, idx: int) -> Option<(u16, int)> {
    table_search(t, s, idx, 0)
}

/// What a successful table search guarantees.
pub proof fn lemma_table_search(t: Seq<Seq<u16>>, s: Seq<bool>, idx: int, n: int)
    requires
        table_search(t, s, idx, n) is Some,
    ensures
        0 <= idx,
        idx + n <= table_search(t, s, idx, n).unwrap().1 <= s.len(),
        table_search(t, s, idx, n).unwrap().1 <= idx + 16,
        table_search(t, s, idx, n).unwrap().0 != u16::MAX,
    decreases 17 - n,
{
    let v = t[n][be_value(s.subrange(idx, idx + n)) as int];
    if v == u16::MAX {
        lemma_table_search(t, s, idx, n + 1);
    }
}

/// Reads one symbol with a decoding table and moves `*buffer_idx` past its code.
fn read_symbol(tree: &Vec<[u16; 100000]>, buffer: &[u8], buffer_idx: &mut usize) -> (val: u16)
    requires
        buffer@.len() <= usize::MAX / 8,
        table_decode(rows_view(tree@), msb_stream(buffer@), *old(buffer_idx) as int) is Some,
    ensures
        table_decode(rows_view(tree@), msb_stream(buffer@), *old(buffer_idx) as int) == Some(
            (val, *final(buffer_idx) as int),
        ),
{
    let ghost t = rows_view(tree@);
    let ghost s = msb_stream(buffer@);
    let mut val = u16::MAX;
    let mut n: usize = 0;
    while val == u16::MAX
        invariant
            buffer@.len() <= usize::MAX / 8,
            t == rows_view(tree@),
            s == msb_stream(buffer@),
            val == u16::MAX ==> table_search(t, s, *buffer_idx as int, n as int) == table_decode(
                t,
                s,
                *buffer_idx as int,
            ),
            val != u16::MAX ==> n >= 1 && table_decode(t, s, *buffer_idx as int) == Some(
                (val, *buffer_idx + n - 1),
            ),
            table_decode(t, s, *buffer_idx as int) is Some,
            n <= 17,
        decreases 17 - n,
    {
        proof {
            lemma_table_search(t, s, *buffer_idx as int, n as int);
            lemma_msb_bits_window(buffer@, *buffer_idx as int, n as int);
            lemma_be_value_bound(s.subrange(*buffer_idx as int, *buffer_idx + n));
            lemma2_to64();
            if n < 16 {
                lemma_pow2_strictly_increases(n as nat, 16);
            }
        }
        let num = get_num(&get_n_bits_reverse(buffer, *buffer_idx, n));
        val = tree[n][num as usize];
        n += 1;
    }
    proof {
        lemma_table_search(t, s, *buffer_idx as int, 0);
    }
    *buffer_idx += n - 1;
    val
}

/// `r` zeros.
pub open spec fn zeros(r: nat) -> Seq<u16> {
    Seq::new(r, |i: int| 0u16)
}

/// Reads code lengths until `num_codes` are known, starting with `lens`: symbols 0..=15 are
/// lengths, 16 repeats the previous length 3 to 6 times, 17 and 18 give 3 to 10 and 11 to 138
/// zeros. `None` where the stream is malformed or ends too early.
pub open spec fn read_lengths(t: Seq<Seq<u16>>, s: Seq<bool>, idx: int, lens: Seq<u16>, num_codes: int) -> Option<
    (Seq<u16>, int),
>
    decreases num_codes - lens.len(),
{
    if lens.len() >= num_codes {
        Some((lens, idx))
    } else {
        match table_decode(t, s, idx) {
            None => None,
            Some((val, i1)) => {
                if val == 18 || val == 17 || val == 16 {
                    let nbits: int = if val == 18 { 7 } else if val == 17 { 3 } else { 2 };
                    let base: int = if val == 18 { 11 } else { 3 };
                    if i1 + nbits > s.len() {
                        None
                    } else {
                        let r = le_value(s.subrange(i1, i1 + nbits)) + base;
                        if lens.len() + r > num_codes || (val == 16 && lens.len() == 0) {
                            None
                        } else {
                            let fill = if val == 16 {
                                Seq::new(r as nat, |i: int| lens.last())
                            } else {
                                zeros(r as nat)
                            };
                            read_lengths(t, s, i1 + nbits, lens + fill, num_codes)
                        }
                    }
                } else {
                    read_lengths(t, s, i1, lens.push(val), num_codes)
                }
            },
        }
    }
}

/// Reading code lengths keeps the lengths read so far at the front.
proof fn lemma_read_lengths_extends(t: Seq<Seq<u16>>, s: Seq<bool>, idx: int, lens: Seq<u16>, num_codes: int)
    requires
        read_lengths(t, s, idx, lens, num_codes) is Some,
    ensures
        lens.len() <= read_lengths(t, s, idx, lens, num_codes).unwrap().0.len(),
        forall|k: int| 0 <= k < lens.len() ==> #[trigger] read_lengths(t, s, idx, lens, num_codes).unwrap().0[k] == lens[k],
    decreases num_codes - lens.len(),
{
    if lens.len() < num_codes {
        let (val, i1) = table_decode(t, s, idx).unwrap();
        if val == 18 || val == 17 || val == 16 {
            let nbits: int = if val == 18 { 7 } else if val == 17 { 3 } else { 2 };
            let base: int = if val == 18 { 11 } else { 3 };
            let r = le_value(s.subrange(i1, i1 + nbits)) + base;
            let fill = if val == 16 {
                Seq::new(r as nat, |i: int| lens.last())
            } else {
                zeros(r as nat)
            };
            lemma_read_lengths_extends(t, s, i1 + nbits, lens + fill, num_codes);
            assert forall|k: int| 0 <= k < lens.len() implies (lens + fill)[k] == lens[k] by {}
        } else {
            lemma_read_lengths_extends(t, s, i1, lens.push(val), num_codes);
            assert forall|k: int| 0 <= k < lens.len() implies lens.push(val)[k] == lens[k] by {}
        }
    }
}

/// Law: a code-length symbol 16 repeats the previous code length 3 to 6 times, as its two
/// extra bits (least significant first) say; 17 and 18 write 3 to 10 and 11 to 138 zeros, as
/// their three and seven extra bits say; any other symbol is itself the next code length.
/// Whatever follows, the lengths read on from `lens` begin with `lens` and then those.
pub proof fn lemma_code_length_symbols(t: Seq<Seq<u16>>, s: Seq<bool>, idx: int, lens: Seq<u16>, num_codes: int)
    requires
        lens.len() < num_codes,
        read_lengths(t, s, idx, lens, num_codes) is Some,
    ensures
        ({
            let out = read_lengths(t, s, idx, lens, num_codes).unwrap().0;
            let (val, i1) = table_decode(t, s, idx).unwrap();
            &&& table_decode(t, s, idx) is Some
            &&& forall|k: int| 0 <= k < lens.len() ==> #[trigger] out[k] == lens[k]
            &&& val == 16 ==> {
                let r = 3 + le_value(s.subrange(i1, i1 + 2));
                &&& lens.len() > 0
                &&& 3 <= r <= 6
                &&& lens.len() + r <= out.len()
                &&& forall|k: int| lens.len() <= k < lens.len() + r ==> #[trigger] out[k] == lens.last()
            }
            &&& val == 17 ==> {
                let r = 3 + le_value(s.subrange(i1, i1 + 3));
                &&& 3 <= r <= 10
                &&& lens.len() + r <= out.len()
                &&& forall|k: int| lens.len() <= k < lens.len() + r ==> #[trigger] out[k] == 0
            }
            &&& val == 18 ==> {
                let r = 11 + le_value(s.subrange(i1, i1 + 7));
                &&& 11 <= r <= 138
                &&& lens.len() + r <= out.len()
                &&& forall|k: int| lens.len() <= k < lens.len() + r ==> #[trigger] out[k] == 0
            }
            &&& val < 16 ==> lens.len() < out.len() && out[lens.len() as int] == val
        }),
{
    lemma_read_lengths_extends(t, s, idx, lens, num_codes);
    lemma_table_search(t, s, idx, 0);
    let (val, i1) = table_decode(t, s, idx).unwrap();
    lemma2_to64();
    if val == 18 || val == 17 || val == 16 {
        let nbits: int = if val == 18 { 7 } else if val == 17 { 3 } else { 2 };
        let base: int = if val == 18 { 11 } else { 3 };
        lemma_le_value_bound(s.subrange(i1, i1 + nbits));
        let r = le_value(s.subrange(i1, i1 + nbits)) + base;
        let fill = if val == 16 {
            Seq::new(r as nat, |i: int| lens.last())
        } else {
            zeros(r as nat)
        };
        lemma_read_lengths_extends(t, s, i1 + nbits, lens + fill, num_codes);
        let out = read_lengths(t, s, idx, lens, num_codes).unwrap().0;
        assert(out == read_lengths(t, s, i1 + nbits, lens + fill, num_codes).unwrap().0);
        assert forall|k: int| lens.len() <= k < lens.len() + r implies #[trigger] out[k] == fill[k - lens.len()] by {
            assert((lens + fill)[k] == fill[k - lens.len()]);
        }
        assert(r <= pow2(nbits as nat) + base);
        assert(pow2(2) == 4 && pow2(3) == 8 && pow2(7) == 128);
    } else {
        lemma_read_lengths_extends(t, s, i1, lens.push(val), num_codes);
        assert(lens.push(val)[lens.len() as int] == val);
    }
}

/// The symbols `0, 1, ..., n - 1`.
pub open spec fn iota(n: nat) -> Seq<u16> {
    Seq::new(n, |i: int| i as u16)
}

/// The code lengths describe a table that fits: every code of every used length is below 100000.
pub open spec fn canonical_fits(lens: Seq<u16>) -> bool {
    forall|i: int|
        0 <= i < lens.len() && lens[i] != 0 ==> next_code_spec(lens, lens[i] as nat) + count_len(
            lens,
            lens[i] as int,
        ) <= 100000
}

/// The canonical decoding table for the symbols `0..lens.len()` with these code lengths.
pub open spec fn dynamic_table(lens: Seq<u16>) -> Seq<Seq<u16>> {
    place_symbols(
        sorted_prefix(iota(lens.len()), lens.len() as int),
        iota(lens.len()),
        lens,
        empty_rows(max_len(lens) + 1),
        canonical_next(lens),
    ).0
}

/// Reads `num_codes` code lengths with the code-length table `code_len_tree` and builds the
/// canonical decoding table of the symbols `0..num_codes` with those lengths.
pub fn get_codes_lit_dist(
    code_len_tree: &Vec<[u16; 100000]>,
    buffer: &[u8],
    buffer_idx: &mut usize,
    num_codes: usize,
) -> (tree: Vec<[u16; 100000]>)
    requires
        buffer@.len() <= usize::MAX / 8,
        1 <= num_codes <= 65536,
        read_lengths(
            rows_view(code_len_tree@),
            msb_stream(buffer@),
            *old(buffer_idx) as int,
            Seq::empty(),
            num_codes as int,
        ) is Some,
        canonical_fits(
            read_lengths(
                rows_view(code_len_tree@),
                msb_stream(buffer@),
                *old(buffer_idx) as int,
                Seq::empty(),
                num_codes as int,
            ).unwrap().0,
        ),
    ensures
        ({
            let (lens, next) = read_lengths(
                rows_view(code_len_tree@),
                msb_stream(buffer@),
                *old(buffer_idx) as int,
                Seq::empty(),
                num_codes as int,
            ).unwrap();
            &&& *final(buffer_idx) == next
            &&& rows_view(tree@) == dynamic_table(lens)
        }),
{
    let ghost t = rows_view(code_len_tree@);
    let ghost s = msb_stream(buffer@);
    let ghost goal = read_lengths(t, s, *buffer_idx as int, Seq::empty(), num_codes as int);
    let mut code_lengths: Vec<u16> = vec![0u16; num_codes];
    let mut code_idx: usize = 0;
    assert(code_lengths@.take(0) =~= Seq::<u16>::empty());
    while code_idx < num_codes
        invariant
            buffer@.len() <= usize::MAX / 8,
            t == rows_view(code_len_tree@),
            s == msb_stream(buffer@),
            code_lengths@.len() == num_codes,
            code_idx <= num_codes,
            goal is Some,
            read_lengths(t, s, *buffer_idx as int, code_lengths@.take(code_idx as int), num_codes as int) == goal,
        decreases num_codes - code_idx,
    {
        let ghost prefix = code_lengths@.take(code_idx as int);
        let ghost idx0 = *buffer_idx as int;
        proof {
            lemma_table_search(t, s, idx0, 0);
        }
        let val = read_symbol(code_len_tree, buffer, buffer_idx);
        if val == 18 || val == 17 || val == 16 {
            let nbits: usize = if val == 18 { 7 } else if val == 17 { 3 } else { 2 };
            proof {
                lemma_msb_bits_window(buffer@, *buffer_idx as int, nbits as int);
                lemma_le_value_bound(s.subrange(*buffer_idx as int, *buffer_idx + nbits));
                lemma2_to64();
            }
            let base: usize = if val == 18 { 11 } else { 3 };
            let repeats = get_num_reverse(&get_n_bits_reverse(buffer, *buffer_idx, nbits)) as usize + base;
            let fill = if val == 16 { code_lengths[code_idx - 1] } else { 0 };
            let mut i = code_idx;
            while i < code_idx + repeats
                invariant
                    code_idx <= i <= code_idx + repeats <= num_codes,
                    code_lengths@.len() == num_codes,
                    code_lengths@.take(i as int) =~= prefix + Seq::new((i - code_idx) as nat, |k: int| fill),
                decreases code_idx + repeats - i,
            {
                let ghost before = code_lengths@;
                code_lengths[i] = fill;
                proof {
                    assert(code_lengths@.take(i + 1) =~= before.take(i as int).push(fill));
                    assert(prefix + Seq::new((i + 1 - code_idx) as nat, |k: int| fill) =~= (prefix + Seq::new(
                        (i - code_idx) as nat,
                        |k: int| fill,
                    )).push(fill));
                }
                i += 1;
            }
            proof {
                let r = repeats as nat;
                if val == 16 {
                    assert(fill == prefix.last());
                    assert(Seq::new(r, |k: int| fill) =~= Seq::new(r, |k: int| prefix.last()));
                } else {
                    assert(Seq::new(r, |k: int| fill) =~= zeros(r));
                }
            }
            code_idx = code_idx + repeats;
            *buffer_idx += nbits;
        } else {
            code_lengths[code_idx] = val;
            code_idx += 1;
            assert(code_lengths@.take(code_idx as int) =~= prefix.push(val));
        }
    }
    let ghost lens = code_lengths@;
    assert(code_lengths@.take(num_codes as int) =~= lens);
    let mut alphabet: Vec<u16> = Vec::new();
    let mut x: usize = 0;
    while x < num_codes
        invariant
            x <= num_codes <= 65536,
            alphabet@ =~= iota(x as nat),
        decreases num_codes - x,
    {
        alphabet.push(x as u16);
        x += 1;
    }
    proof {
        assert forall|i: int, j: int| 0 <= i < num_codes && 0 <= j < alphabet@.len() && i != j implies alphabet@[i]
            != alphabet@[j] by {
            assert(alphabet@[i] == i as u16 && alphabet@[j] == j as u16);
        }
    }
    convert_code_lengths_matrix(&code_lengths, alphabet)
}

/// The (length, distance) pair after length symbol `num` when distances are coded with the
/// table `dt`, with the bit index after it. `None` where the stream is malformed or ends too early.
pub open spec fn parse_length_dist(dt: Seq<Seq<u16>>, s: Seq<bool>, idx: int, num: int) -> Option<(AsciiNum, int)> {
    let lb = length_extra_bits(num);
    if idx < 0 || idx + lb > s.len() {
        None
    } else {
        let length = if num == 285 {
            258
        } else {
            lower_bound_spec(lb, num) + le_value(s.subrange(idx, idx + lb))
        };
        match table_decode(dt, s, idx + lb) {
            None => None,
            Some((dn, q)) => {
                let k = distance_extra_bits(dn as int);
                if dn > 29 || q + k > s.len() {
                    None
                } else {
                    Some((AsciiNum::LenDist((length as u16, fixed_distance(s, dn as int, q) as u16)), q + k))
                }
            },
        }
    }
}

/// What a successful length/distance parse guarantees.
pub proof fn lemma_parse_length_dist(dt: Seq<Seq<u16>>, s: Seq<bool>, idx: int, num: int)
    requires
        257 <= num <= 287,
        parse_length_dist(dt, s, idx, num) is Some,
    ensures
        ({
            let (tok, next) = parse_length_dist(dt, s, idx, num).unwrap();
            &&& idx <= next <= s.len()
            &&& (tok matches AsciiNum::LenDist((l, d)) && 3 <= l <= 258 && 1 <= d <= 32768)
        }),
{
    let lb = length_extra_bits(num);
    lemma_le_value_bound(s.subrange(idx, idx + lb));
    lemma2_to64();
    if num != 285 {
        lemma_length_range(num, le_value(s.subrange(idx, idx + lb)) as int);
    }
    lemma_table_search(dt, s, idx + lb, 0);
    let (dn, q) = table_decode(dt, s, idx + lb).unwrap();
    let k = distance_extra_bits(dn as int);
    lemma_le_value_bound(s.subrange(q, q + k));
    lemma_distance_range(dn as int, le_value(s.subrange(q, q + k)) as int);
}

/// Law: a dynamic block reads a back-reference's distance exactly as a fixed block reads it
/// from the same distance code and the bits after it: the code's base plus its extra bits
/// read least significant first, and the parse ends after those extra bits. The length is
/// the length symbol's base plus its extra bits, also least significant first (258 for 285).
pub proof fn lemma_dynamic_distance_as_fixed(dt: Seq<Seq<u16>>, s: Seq<bool>, idx: int, num: int)
    requires
        257 <= num <= 287,
        parse_length_dist(dt, s, idx, num) is Some,
    ensures
        ({
            let (tok, next) = parse_length_dist(dt, s, idx, num).unwrap();
            let (dn, q) = table_decode(dt, s, idx + length_extra_bits(num)).unwrap();
            let k = distance_extra_bits(dn as int);
            &&& table_decode(dt, s, idx + length_extra_bits(num)) is Some
            &&& next == q + k
            &&& tok matches AsciiNum::LenDist((l, d)) && d == fixed_distance(s, dn as int, q)
            &&& tok matches AsciiNum::LenDist((l, d)) && l == (if num == 285 {
                258
            } else {
                lower_bound_spec(length_extra_bits(num), num) + le_value(
                    s.subrange(idx, idx + length_extra_bits(num)),
                )
            })
            &&& dn >= 4 ==> (tok matches AsciiNum::LenDist((l, d)) && d == (dn % 2) * pow2(k as nat)
                + DISTANCE_CODES[k] + le_value(s.subrange(q, q + k)))
        }),
{
    let lb = length_extra_bits(num);
    let length_bits = s.subrange(idx, idx + lb);
    lemma_le_value_bound(length_bits);
    lemma2_to64();
    if num != 285 {
        lemma_length_range(num, le_value(length_bits) as int);
    }
    lemma_table_search(dt, s, idx + lb, 0);
    let (dn, q) = table_decode(dt, s, idx + lb).unwrap();
    let k = distance_extra_bits(dn as int);
    let extra = s.subrange(q, q + k);
    lemma_le_value_bound(extra);
    lemma_distance_range(dn as int, le_value(extra) as int);
}

/// Reads the extra length bits after length symbol `num`, then a distance code with the
/// table `distance_tree` and its extra bits, and moves `*idx` past them.
pub fn process_length(num: u16, buffer: &[u8], idx: &mut usize, distance_tree: &Vec<[u16; 100000]>) -> (token: AsciiNum)
    requires
        257 <= num <= 287,
        buffer@.len() <= usize::MAX / 8,
        parse_length_dist(rows_view(distance_tree@), msb_stream(buffer@), *old(idx) as int, num as int) is Some,
    ensures
        parse_length_dist(rows_view(distance_tree@), msb_stream(buffer@), *old(idx) as int, num as int) == Some(
            (token, *final(idx) as int),
        ),
{
    let ghost dt = rows_view(distance_tree@);
    let ghost s = msb_stream(buffer@);
    let ghost start = *idx as int;
    proof {
        lemma_parse_length_dist(dt, s, start, num as int);
    }
    let mut cnt: usize = 0;
    let mut len_bits_to_read: usize = 0;
    while cnt < 6
        invariant
            cnt <= 6,
            257 <= num <= 287,
            len_bits_to_read == crate::fixed::extra_bits_found(num as int, cnt as int),
        decreases 6 - cnt,
    {
        let (x, y) = BITS_TO_READ[cnt];
        assert(cnt == 0 ==> x == 257 && y == 264);
        assert(cnt > 0 ==> x == 261 + 4 * cnt && y == 264 + 4 * cnt);
        if num >= x && num <= y {
            len_bits_to_read = cnt;
        }
        cnt += 1;
    }
    assert(len_bits_to_read == length_extra_bits(num as int));
    proof {
        lemma_msb_bits_window(buffer@, start, len_bits_to_read as int);
        lemma_le_value_bound(s.subrange(start, start + len_bits_to_read));
        lemma2_to64();
        if len_bits_to_read < 6 {
            lemma_pow2_strictly_increases(len_bits_to_read as nat, 6);
        }
        if num != 285 {
            lemma_length_range(num as int, le_value(s.subrange(start, start + len_bits_to_read)) as int);
        }
    }
    let additional_bits = get_n_bits_reverse(buffer, *idx, len_bits_to_read);
    let mut length = get_lower_bound(len_bits_to_read, num) + get_num_reverse(&additional_bits);
    if num == 285 {
        len_bits_to_read = 0;
        length = 258;
    }
    *idx = *idx + len_bits_to_read;
    let distance_num = read_symbol(distance_tree, buffer, idx);
    // Distance codes above 29 are excluded by the precondition.
    if distance_num < 4 {
        return AsciiNum::LenDist((length, distance_num + 1));
    }
    let dist_bits_to_read = ((distance_num - 4) / 2 + 1) as usize;
    let q = *idx;
    proof {
        lemma_msb_bits_window(buffer@, q as int, dist_bits_to_read as int);
        lemma_le_value_bound(s.subrange(q as int, q + dist_bits_to_read));
        lemma_distance_range(distance_num as int, le_value(s.subrange(q as int, q + dist_bits_to_read)) as int);
        if dist_bits_to_read < 13 {
            lemma_pow2_strictly_increases(dist_bits_to_read as nat, 13);
        }
        vstd::bits::lemma_u16_shl_is_mul(1u16, dist_bits_to_read as u16);
        assert(forall|i: int| 0 <= i < 14 ==> DISTANCE_CODES[i] <= 16385);
    }
    let distance_lower = (distance_num % 2) * (1u16 << (dist_bits_to_read as u16))
        + DISTANCE_CODES[dist_bits_to_read];
    let additional_distance = get_num_reverse(&get_n_bits_reverse(buffer, *idx, dist_bits_to_read));
    *idx += dist_bits_to_read;
    AsciiNum::LenDist((length, distance_lower + additional_distance))
}

/// The bytes a block coded with literal/length table `lt` and distance table `dt` adds to
/// `out`, from bit `idx` to the end-of-block symbol, and the bit index after it. `None` where
/// the stream is malformed, ends too early, or never reaches the end-of-block symbol.
pub open spec fn decode_dyn(
    lt: Seq<Seq<u16>>,
    dt: Seq<Seq<u16>>,
    s: Seq<bool>,
    idx: int,
    out: Seq<u8>,
) -> Option<(Seq<u8>, int)>
    decreases s.len() - idx,
{
    if idx < 0 || idx > s.len() {
        None
    } else {
        match table_decode(lt, s, idx) {
            None => None,
            Some((v, i1)) => {
                if v == 256 {
                    Some((out, i1))
                } else if v > 256 {
                    if v > 287 {
                        None
                    } else {
                        match parse_length_dist(dt, s, i1, v as int) {
                            Some((AsciiNum::LenDist((l, d)), i2)) => {
                                if i2 <= idx || i2 > s.len() || d > out.len() {
                                    None
                                } else {
                                    decode_dyn(lt, dt, s, i2, lz77_copy(out, l as nat, d as nat))
                                }
                            },
                            _ => None,
                        }
                    }
                } else {
                    if i1 <= idx || i1 > s.len() {
                        None
                    } else {
                        decode_dyn(lt, dt, s, i1, out.push(v as u8))
                    }
                }
            },
        }
    }
}

/// Decodes a block coded with `literal_tree` and `distance_tree` from bit `*buffer_idx`,
/// appending its bytes to `file_data` and leaving `*buffer_idx` after the end-of-block symbol.
pub fn decode_dynamic(
    literal_tree: Vec<[u16; 100000]>,
    distance_tree: Vec<[u16; 100000]>,
    buffer: &[u8],
    buffer_idx: &mut usize,
    file_data: &mut Vec<u8>,
)
    requires
        buffer@.len() <= usize::MAX / 8,
        decode_dyn(
            rows_view(literal_tree@),
            rows_view(distance_tree@),
            msb_stream(buffer@),
            *old(buffer_idx) as int,
            old(file_data)@,
        ) is Some,
    ensures
        decode_dyn(
            rows_view(literal_tree@),
            rows_view(distance_tree@),
            msb_stream(buffer@),
            *old(buffer_idx) as int,
            old(file_data)@,
        ) == Some((final(file_data)@, *final(buffer_idx) as int)),
{
    let ghost lt = rows_view(literal_tree@);
    let ghost dt = rows_view(distance_tree@);
    let ghost s = msb_stream(buffer@);
    let ghost goal = decode_dyn(lt, dt, s, *buffer_idx as int, file_data@);
    loop
        invariant_except_break
            buffer@.len() <= usize::MAX / 8,
            lt == rows_view(literal_tree@),
            dt == rows_view(distance_tree@),
            s == msb_stream(buffer@),
            goal is Some,
            decode_dyn(lt, dt, s, *buffer_idx as int, file_data@) == goal,
            *buffer_idx <= s.len(),
        ensures
            goal == Some((file_data@, *buffer_idx as int)),
        decreases s.len() - *buffer_idx,
    {
        let ghost idx0 = *buffer_idx as int;
        proof {
            lemma_table_search(lt, s, idx0, 0);
        }
        let val = read_symbol(&literal_tree, buffer, buffer_idx);
        if val == 256 {
            break;
        }
        if val > 256 {
            proof {
                lemma_parse_length_dist(dt, s, *buffer_idx as int, val as int);
            }
            let len_dist = process_length(val, buffer, buffer_idx, &distance_tree);
            match len_dist {
                AsciiNum::LenDist(value) => {
                    decode_lz77(value, file_data);
                },
                AsciiNum::Ascii(_) => {
                    proof {
                        assert(false);
                    }
                },
            }
        } else {
            file_data.push(val as u8);
        }
    }
}

} // verus!
