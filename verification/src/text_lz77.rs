//! LZ77 on text: repeats are written as `<length,distance>` in decimal, other characters as
//! themselves. The hash chains are vectors of positions in a `HashMap`, keyed by the three
//! characters they start, packed into a `u128`.
use vstd::prelude::*;
use std::collections::HashMap;
use crate::huffman::{in_window, run_len, lemma_run_len, match_cap};
use vstd::string::StringSliceAdditionalSpecFns;

verus! {

broadcast use vstd::std_specs::hash::group_hash_axioms;

/// One step of a text parse: the character where it stands, or a repeat of `length`
/// characters from `distance` characters back.
pub enum TextToken {
    Letter,
    Repeat(usize, usize),
}

/// The decimal digits of `n`, most significant first.
pub open spec fn decimal(n: nat) -> Seq<char>
    decreases n,
{
    if n < 10 {
        seq![digit_char(n)]
    } else {
        decimal(n / 10).push(digit_char(n % 10))
    }
}

/// The character of a decimal digit.
pub open spec fn digit_char(d: nat) -> char {
    if d == 0 {
        '0'
    } else if d == 1 {
        '1'
    } else if d == 2 {
        '2'
    } else if d == 3 {
        '3'
    } else if d == 4 {
        '4'
    } else if d == 5 {
        '5'
    } else if d == 6 {
        '6'
    } else if d == 7 {
        '7'
    } else if d == 8 {
        '8'
    } else {
        '9'
    }
}

/// The text of one token at position `pos` of `text`: the character there, or
/// `<length,distance>`.
pub open spec fn render_token(t: TextToken, text: Seq<char>, pos: int) -> Seq<char> {
    match t {
        TextToken::Letter => seq![text[pos]],
        TextToken::Repeat(l, d) => seq!['<'] + decimal(l as nat) + seq![','] + decimal(d as nat) + seq!['>'],
    }
}

/// The text of a sequence of tokens over `text`, starting at position 0.
pub open spec fn render_tokens(ts: Seq<TextToken>, text: Seq<char>) -> Seq<char>
    decreases ts.len(),
{
    if ts.len() == 0 {
        Seq::empty()
    } else {
        render_tokens(ts.drop_last(), text) + render_token(ts.last(), text, text_end(ts.drop_last(), 0))
    }
}

/// The value of a sequence of decimal digits, most significant first.
pub open spec fn digits_value(ds: Seq<char>) -> nat
    decreases ds.len(),
{
    if ds.len() == 0 {
        0
    } else {
        digits_value(ds.drop_last()) * 10 + digit_of(ds.last())
    }
}

/// The value of a decimal digit character (0 for any other character).
pub open spec fn digit_of(c: char) -> nat {
    if c == '1' {
        1
    } else if c == '2' {
        2
    } else if c == '3' {
        3
    } else if c == '4' {
        4
    } else if c == '5' {
        5
    } else if c == '6' {
        6
    } else if c == '7' {
        7
    } else if c == '8' {
        8
    } else if c == '9' {
        9
    } else {
        0
    }
}

/// The first position at or after `i` where `s` holds `c`, or the length of `s`.
pub open spec fn find_char(s: Seq<char>, i: int, c: char) -> int
    decreases s.len() - i,
{
    if i < 0 || i >= s.len() {
        s.len() as int
    } else if s[i] == c {
        i
    } else {
        find_char(s, i + 1, c)
    }
}

/// `acc` followed by `l` characters, each copied from `d` characters before it.
pub open spec fn copy_back(acc: Seq<char>, d: int, l: nat) -> Seq<char>
    decreases l,
{
    if l == 0 {
        acc
    } else {
        copy_back(acc.push(acc[acc.len() - d]), d, (l - 1) as nat)
    }
}

/// Expands the text `s` after `acc`: a `<` opens `<length,distance>`, which appends `length`
/// characters copied from `distance` characters back; any other character is appended as it
/// is. `None` where a `<` is not closed or reaches back before the start.
pub open spec fn expand_after(s: Seq<char>, acc: Seq<char>) -> Option<Seq<char>>
    decreases s.len(),
{
    if s.len() == 0 {
        Some(acc)
    } else if s[0] != '<' {
        expand_after(s.drop_first(), acc.push(s[0]))
    } else {
        let c = find_char(s, 1, ',');
        let g = find_char(s, c + 1, '>');
        if g < 1 || g >= s.len() {
            None
        } else {
            let l = digits_value(s.subrange(1, c));
            let d = digits_value(s.subrange(c + 1, g));
            if 1 <= d <= acc.len() {
                expand_after(s.subrange(g + 1, s.len() as int), copy_back(acc, d as int, l))
            } else {
                None
            }
        }
    }
}

/// The text that the rendered form `s` stands for.
pub open spec fn text_expand(s: Seq<char>) -> Option<Seq<char>> {
    expand_after(s, Seq::empty())
}

/// A repeat at `tp`'s position copies characters equal to those it stands for.
pub open spec fn repeat_true(text: Seq<char>, tp: (TextToken, int)) -> bool {
    match tp.0 {
        TextToken::Repeat(l, d) => forall|k: int| 0 <= k < l ==> #[trigger] text[tp.1 + k] == text[tp.1 + k - d],
        TextToken::Letter => true,
    }
}

/// Every repeat of the parse copies characters equal to those it stands for.
pub open spec fn text_repeats_true(ts: Seq<TextToken>, text: Seq<char>) -> bool {
    forall|i: int| 0 <= i < ts.len() ==> #[trigger] repeat_true(text, placed_text(ts, 0)[i])
}

/// The digits of `n` are digit characters, and they read back as `n`.
proof fn lemma_decimal_digits(n: nat)
    ensures
        digits_value(decimal(n)) == n,
        decimal(n).len() >= 1,
        forall|k: int| 0 <= k < decimal(n).len() ==> #[trigger] decimal(n)[k] != ',' && decimal(n)[k] != '>',
    decreases n,
{
    if n >= 10 {
        lemma_decimal_digits(n / 10);
        assert(decimal(n).drop_last() =~= decimal(n / 10));
        assert(digit_of(digit_char(n % 10)) == n % 10);
        assert(decimal(n).last() == digit_char(n % 10));
        assert(digits_value(decimal(n)) == digits_value(decimal(n / 10)) * 10 + digit_of(digit_char(n % 10)));
        assert(n == (n / 10) * 10 + n % 10);
    } else {
        assert(decimal(n).drop_last() =~= Seq::<char>::empty());
        assert(digits_value(Seq::<char>::empty()) == 0);
        assert(digit_of(digit_char(n)) == n);
        assert(decimal(n).last() == digit_char(n));
        assert(digits_value(decimal(n)) == digits_value(Seq::<char>::empty()) * 10 + digit_of(digit_char(n)));
    }
}

/// Where none of `s[i..j]` is `c` and `s[j]` is, `c` is first found at `j`.
proof fn lemma_find_char(s: Seq<char>, i: int, j: int, c: char)
    requires
        0 <= i <= j < s.len(),
        s[j] == c,
        forall|k: int| i <= k < j ==> #[trigger] s[k] != c,
    ensures
        find_char(s, i, c) == j,
    decreases j - i,
{
    if i < j {
        lemma_find_char(s, i + 1, j, c);
    }
}

/// Copying `l` characters from `d` back onto the first `m` characters of `text` gives the
/// first `m + l`, where each of those equals the one `d` before it.
proof fn lemma_copy_back(text: Seq<char>, m: int, d: int, l: nat)
    requires
        1 <= d <= m,
        m + l <= text.len(),
        forall|k: int| 0 <= k < l ==> #[trigger] text[m + k] == text[m + k - d],
    ensures
        copy_back(text.subrange(0, m), d, l) == text.subrange(0, m + l),
    decreases l,
{
    if l > 0 {
        assert(text[m + 0] == text[m + 0 - d]);
        assert(text.subrange(0, m).push(text.subrange(0, m)[m - d]) =~= text.subrange(0, m + 1));
        assert forall|k: int| 0 <= k < l - 1 implies #[trigger] text[(m + 1) + k] == text[(m + 1) + k - d] by {
            assert(text[m + (k + 1)] == text[m + (k + 1) - d]);
        }
        lemma_copy_back(text, m + 1, d, (l - 1) as nat);
    }
}

/// Expanding one rendered token after the text before it appends the characters it stands
/// for.
proof fn lemma_expand_token(t: TextToken, text: Seq<char>, e: int, rest: Seq<char>)
    requires
        text_token_fits(t, text, e),
        0 <= e,
        t is Letter ==> text[e] != '<',
        repeat_true(text, (t, e)),
    ensures
        expand_after(render_token(t, text, e) + rest, text.subrange(0, e)) == expand_after(
            rest,
            text.subrange(0, e + match t {
                TextToken::Letter => 1int,
                TextToken::Repeat(l, _) => l as int,
            }),
        ),
{
    let s = render_token(t, text, e) + rest;
    match t {
        TextToken::Letter => {
            assert(s.drop_first() =~= rest);
            assert(text.subrange(0, e).push(text[e]) =~= text.subrange(0, e + 1));
        },
        TextToken::Repeat(l, d) => {
            let dl = decimal(l as nat);
            let dd = decimal(d as nat);
            lemma_decimal_digits(l as nat);
            lemma_decimal_digits(d as nat);
            let c: int = 1 + dl.len() as int;
            let g: int = c + 1 + dd.len() as int;
            assert(s[c] == ',');
            assert forall|k: int| 1 <= k < c implies #[trigger] s[k] != ',' by {
                assert(s[k] == dl[k - 1]);
            }
            lemma_find_char(s, 1, c, ',');
            assert(s[g] == '>');
            assert forall|k: int| c + 1 <= k < g implies #[trigger] s[k] != '>' by {
                assert(s[k] == dd[k - c - 1]);
            }
            lemma_find_char(s, c + 1, g, '>');
            assert(s.subrange(1, c) =~= dl);
            assert(s.subrange(c + 1, g) =~= dd);
            assert(s.subrange(g + 1, s.len() as int) =~= rest);
            assert forall|k: int| 0 <= k < l implies #[trigger] text[e + k] == text[e + k - d] by {
                let tp = (t, e);
                assert(repeat_true(text, tp));
                assert(text[tp.1 + k] == text[tp.1 + k - d]);
            }
            lemma_copy_back(text, e, d as int, l as nat);
        },
    }
}

/// Law: the rendered form of a parse of a text without `<`, whose repeats copy equal
/// characters, expands back to the text.
pub proof fn lemma_expand_rendered(ts: Seq<TextToken>, text: Seq<char>)
    requires
        text_parse(ts, text, 0),
        text_end(ts, 0) == text.len(),
        text_repeats_true(ts, text),
        forall|j: int| 0 <= j < text.len() ==> #[trigger] text[j] != '<',
    ensures
        text_expand(render_tokens(ts, text)) == Some(text),
{
    lemma_expand_prefix(ts, text, Seq::empty());
    assert(render_tokens(ts, text) + Seq::<char>::empty() =~= render_tokens(ts, text));
    assert(text.subrange(0, text.len() as int) =~= text);
}

/// Expanding the rendered form of the tokens, then `rest`, is expanding `rest` after the text
/// the tokens stand for.
proof fn lemma_expand_prefix(ts: Seq<TextToken>, text: Seq<char>, rest: Seq<char>)
    requires
        text_parse(ts, text, 0),
        text_end(ts, 0) <= text.len(),
        text_repeats_true(ts, text),
        forall|j: int| 0 <= j < text.len() ==> #[trigger] text[j] != '<',
    ensures
        expand_after(render_tokens(ts, text) + rest, Seq::empty()) == expand_after(
            rest,
            text.subrange(0, text_end(ts, 0)),
        ),
    decreases ts.len(),
{
    if ts.len() == 0 {
        assert(Seq::<char>::empty() + rest =~= rest);
        assert(text.subrange(0, 0) =~= Seq::<char>::empty());
    } else {
        let p = ts.drop_last();
        let t = ts.last();
        let e = text_end(p, 0);
        lemma_text_end_grows(p);
        assert(placed_text(ts, 0) == placed_text(p, 0).push((t, e)));
        lemma_placed_text_len(p, 0);
        assert forall|i: int| 0 <= i < p.len() implies #[trigger] repeat_true(text, placed_text(p, 0)[i]) by {
            assert(placed_text(ts, 0)[i] == placed_text(p, 0)[i]);
            assert(repeat_true(text, placed_text(ts, 0)[i]));
        }
        assert(placed_text(ts, 0)[p.len() as int] == (t, e));
        assert(text_token_fits(t, text, e));
        if t is Letter {
            assert(text[e] != '<');
        }
        assert(repeat_true(text, placed_text(ts, 0)[p.len() as int]));
        lemma_expand_prefix(p, text, render_token(t, text, e) + rest);
        assert(render_tokens(ts, text) + rest =~= render_tokens(p, text) + (render_token(t, text, e) + rest));
        lemma_expand_token(t, text, e, rest);
    }
}

/// The tokens stand for a text that does not end before it starts.
proof fn lemma_text_end_grows(ts: Seq<TextToken>)
    ensures
        text_end(ts, 0) >= 0,
    decreases ts.len(),
{
    if ts.len() > 0 {
        lemma_text_end_grows(ts.drop_last());
    }
}

/// Where the text the tokens stand for ends, when they start at `start`.
pub open spec fn text_end(ts: Seq<TextToken>, start: int) -> int
    decreases ts.len(),
{
    if ts.len() == 0 {
        start
    } else {
        text_end(ts.drop_last(), start) + match ts.last() {
            TextToken::Letter => 1int,
            TextToken::Repeat(l, _) => l as int,
        }
    }
}

/// Token `t` may stand at position `pos` of `text`: a character is the one there; a repeat
/// is 3 to 258 characters long, lies within `text`, and reaches back at least one character
/// and at most to the start.
pub open spec fn text_token_fits(t: TextToken, text: Seq<char>, pos: int) -> bool {
    match t {
        TextToken::Letter => 0 <= pos < text.len(),
        TextToken::Repeat(l, d) => 3 <= l <= 258 && 1 <= d <= pos && d <= 32768 && pos + l <= text.len(),
    }
}

/// The tokens cover `text` from `start` on, one after the other, each fitting where it stands.
pub open spec fn text_parse(ts: Seq<TextToken>, text: Seq<char>, start: int) -> bool
    decreases ts.len(),
{
    if ts.len() == 0 {
        true
    } else {
        text_parse(ts.drop_last(), text, start) && text_token_fits(
            ts.last(),
            text,
            text_end(ts.drop_last(), start),
        )
    }
}

/// Each token with the position where it stands, when the tokens start at `start`.
pub open spec fn placed_text(ts: Seq<TextToken>, start: int) -> Seq<(TextToken, int)>
    decreases ts.len(),
{
    if ts.len() == 0 {
        Seq::empty()
    } else {
        placed_text(ts.drop_last(), start).push((ts.last(), text_end(ts.drop_last(), start)))
    }
}

/// There is one placed token for each token.
proof fn lemma_placed_text_len(ts: Seq<TextToken>, start: int)
    ensures
        placed_text(ts, start).len() == ts.len(),
    decreases ts.len(),
{
    if ts.len() > 0 {
        lemma_placed_text_len(ts.drop_last(), start);
    }
}

proof fn lemma_push_text_token(ts: Seq<TextToken>, t: TextToken, text: Seq<char>)
    ensures
        placed_text(ts.push(t), 0) == placed_text(ts, 0).push((t, text_end(ts, 0))),
        placed_text(ts, 0).len() == ts.len(),
        render_tokens(ts.push(t), text) == render_tokens(ts, text) + render_token(t, text, text_end(ts, 0)),
        text_end(ts.push(t), 0) == text_end(ts, 0) + match t {
            TextToken::Letter => 1int,
            TextToken::Repeat(l, _) => l as int,
        },
        text_parse(ts.push(t), text, 0) == (text_parse(ts, text, 0) && text_token_fits(
            t,
            text,
            text_end(ts, 0),
        )),
{
    assert(ts.push(t).drop_last() =~= ts);
    lemma_placed_text_len(ts, 0);
}

/// The decimal digits of `n`, most significant first.
fn decimal_chars(n: usize) -> (digits: Vec<char>)
    ensures
        digits@ == decimal(n as nat),
    decreases n,
{
    let d = n % 10;
    let c = if d == 0 {
        '0'
    } else if d == 1 {
        '1'
    } else if d == 2 {
        '2'
    } else if d == 3 {
        '3'
    } else if d == 4 {
        '4'
    } else if d == 5 {
        '5'
    } else if d == 6 {
        '6'
    } else if d == 7 {
        '7'
    } else if d == 8 {
        '8'
    } else {
        '9'
    };
    if n < 10 {
        vec![c]
    } else {
        let mut v = decimal_chars(n / 10);
        v.push(c);
        v
    }
}

/// The characters of a string.
fn chars_of(s: &String) -> (chars: Vec<char>)
    ensures
        chars@ == s@,
{
    let mut chars: Vec<char> = Vec::new();
    for c in it: s.as_str().chars()
        invariant
            it.seq() == s@,
            chars@ == it.seq().subrange(0, it.index() as int),
    {
        chars.push(c);
    }
    chars
}

/// A string of these characters (std's `FromIterator<char>` for `String`).
#[verifier::external_body]
fn string_of(chars: &Vec<char>) -> (s: String)
    ensures
        s@ == chars@,
{
    chars.iter().collect()
}

/// The key of three characters: their scalar values as the digits of a base-2^32 number.
pub open spec fn text_key(t: (char, char, char)) -> u128 {
    (((t.0 as u32) as u128) << 64u128) | (((t.1 as u32) as u128) << 32u128) | ((t.2 as u32) as u128)
}

/// Different triples of characters get different keys.
proof fn lemma_text_key_injective(a: (char, char, char), b: (char, char, char))
    ensures
        text_key(a) == text_key(b) ==> a == b,
{
    let (a0, a1, a2) = (a.0 as u32, a.1 as u32, a.2 as u32);
    let (b0, b1, b2) = (b.0 as u32, b.1 as u32, b.2 as u32);
    vstd::utf8::char_u32_cast(a.0, a0);
    vstd::utf8::char_u32_cast(a.1, a1);
    vstd::utf8::char_u32_cast(a.2, a2);
    vstd::utf8::char_u32_cast(b.0, b0);
    vstd::utf8::char_u32_cast(b.1, b1);
    vstd::utf8::char_u32_cast(b.2, b2);
    assert((((a0 as u128) << 64u128) | ((a1 as u128) << 32u128) | (a2 as u128)) == (((b0 as u128) << 64u128) | ((
    b1 as u128) << 32u128) | (b2 as u128)) ==> a0 == b0 && a1 == b1 && a2 == b2) by (bit_vector);
}

/// The key of three characters.
fn triple_key(a: char, b: char, c: char) -> (k: u128)
    ensures
        k == text_key((a, b, c)),
{
    (((a as u32) as u128) << 64u128) | (((b as u32) as u128) << 32u128) | ((c as u32) as u128)
}

/// The three characters at `p`.
pub open spec fn triple_at(text: Seq<char>, p: int) -> (char, char, char) {
    (text[p], text[p + 1], text[p + 2])
}

/// Every position listed under a key starts, within `text`, the triple with that key.
pub open spec fn text_chains_ok(m: Map<u128, Vec<usize>>, text: Seq<char>) -> bool {
    forall|k: u128, i: int|
        #![trigger m[k]@[i]]
        m.dom().contains(k) && 0 <= i < m[k]@.len() ==> m[k]@[i] + 2 < text.len() && text_key(
            triple_at(text, m[k]@[i] as int),
        ) == k
}

/// Whether `v` holds `x`.
fn holds(v: &Vec<usize>, x: usize) -> (found: bool)
    ensures
        found == v@.contains(x),
{
    let mut i: usize = 0;
    while i < v.len()
        invariant
            i <= v@.len(),
            forall|j: int| 0 <= j < i ==> v@[j] != x,
        decreases v@.len() - i,
    {
        if v[i] == x {
            assert(v@[i as int] == x);
            return true;
        }
        i += 1;
    }
    false
}

/// Takes the list of `key`, an empty one where there is none, and puts `pos` at its front
/// unless it already holds `check`; positions under their own triple keep the chains right.
fn add_to_chain(
    map: &mut HashMap<u128, Vec<usize>>,
    key: u128,
    check: usize,
    pos: usize,
    Ghost(text): Ghost<Seq<char>>,
)
    requires
        text_chains_ok(old(map)@, text),
        pos + 2 < text.len(),
        text_key(triple_at(text, pos as int)) == key,
    ensures
        text_chains_ok(final(map)@, text),
        ({
            let old_list = if old(map)@.contains_key(key) {
                old(map)@[key]@
            } else {
                Seq::empty()
            };
            &&& final(map)@.contains_key(key)
            &&& final(map)@[key]@ == (if old_list.contains(check) {
                old_list
            } else {
                seq![pos] + old_list
            })
            &&& forall|k: u128| k != key ==> (#[trigger] final(map)@.contains_key(k) == old(map)@.contains_key(k))
            &&& forall|k: u128| k != key && old(map)@.contains_key(k) ==> #[trigger] final(map)@[k] == old(map)@[k]
        }),
        forall|k: u128, p: usize| #[trigger] text_list_of(old(map)@, k).contains(p) ==> text_list_of(final(map)@, k).contains(p),
        check == pos ==> text_list_of(final(map)@, key).contains(pos),
{
    let ghost m = map@;
    let mut val: Vec<usize> = match map.get(&key) {
        Some(v) => v.clone(),
        None => Vec::new(),
    };
    let ghost old_list = val@;
    assert(old_list == text_list_of(m, key));
    if !holds(&val, check) {
        val.insert(0, pos);
        assert(val@ =~= seq![pos] + old_list);
    }
    let ghost new_list = val@;
    map.insert(key, val);
    proof {
        assert(text_list_of(map@, key) == new_list);
        assert forall|k: u128, p: usize| #[trigger] text_list_of(m, k).contains(p) implies text_list_of(map@, k).contains(p) by {
            if k == key {
                if !old_list.contains(check) {
                    lemma_holds_prepend(old_list, p, pos);
                }
            } else {
                assert(text_list_of(map@, k) == text_list_of(m, k));
            }
        }
        if check == pos && !old_list.contains(check) {
            assert(new_list[0] == pos);
        }
        let m2 = map@;
        assert forall|k: u128, i: int| m2.dom().contains(k) && 0 <= i < m2[k]@.len() implies m2[k]@[i] + 2
            < text.len() && text_key(triple_at(text, m2[k]@[i] as int)) == k by {
            if k == key {
                if !old_list.contains(check) && i > 0 {
                    assert(m2[k]@[i] == old_list[i - 1]);
                    assert(m[k]@[i - 1] == old_list[i - 1]);
                } else if old_list.contains(check) {
                    assert(m[k]@[i] == old_list[i]);
                }
            } else {
                assert(m2[k] == m[k]);
            }
        }
    }
}

/// The short-distance candidates at `buffer_idx`, by key: the three characters before it,
/// the two before it with the first repeated, and a run of the one before it; a later one
/// replaces an earlier one with the same key.
pub open spec fn text_temp_spec(text: Seq<char>, idx: int) -> Map<u128, usize> {
    let m0 = Map::<u128, usize>::empty();
    let m1 = if idx >= 3 {
        m0.insert(text_key((text[idx - 3], text[idx - 2], text[idx - 1])), (idx - 3) as usize)
    } else {
        m0
    };
    let m2 = if idx >= 2 {
        m1.insert(text_key((text[idx - 2], text[idx - 1], text[idx - 2])), (idx - 2) as usize)
    } else {
        m1
    };
    if idx >= 1 {
        m2.insert(text_key((text[idx - 1], text[idx - 1], text[idx - 1])), (idx - 1) as usize)
    } else {
        m2
    }
}

/// The short-distance candidates at `buffer_idx`.
fn _get_temp_matches(buffer_idx: usize, buff: &Vec<char>) -> (temp_matches: HashMap<u128, usize>)
    requires
        buffer_idx <= buff.len(),
        buff.len() <= i32::MAX,
    ensures
        temp_matches@ == text_temp_spec(buff@, buffer_idx as int),
{
    let mut temp_matches: HashMap<u128, usize> = HashMap::new();
    if buffer_idx as i32 - 3 >= 0 {
        temp_matches.insert(triple_key(buff[buffer_idx - 3], buff[buffer_idx - 2], buff[buffer_idx - 1]), buffer_idx - 3);
    }
    if buffer_idx as i32 - 2 >= 0 {
        temp_matches.insert(triple_key(buff[buffer_idx - 2], buff[buffer_idx - 1], buff[buffer_idx - 2]), buffer_idx - 2);
    }
    if buffer_idx > 0 {
        temp_matches.insert(triple_key(buff[buffer_idx - 1], buff[buffer_idx - 1], buff[buffer_idx - 1]), buffer_idx - 1);
    }
    assert(temp_matches@ =~= text_temp_spec(buff@, buffer_idx as int));
    temp_matches
}

/// Whether the short-distance candidate recorded under the key of the three characters at
/// `idx` agrees with the character two past `idx`: then `find_match` takes a repeat from it.
pub open spec fn text_short_hit(text: Seq<char>, idx: int) -> bool {
    let m = text_temp_spec(text, idx);
    let k = text_key(triple_at(text, idx));
    &&& idx + 2 < text.len()
    &&& m.contains_key(k)
    &&& text[m[k] as int] == text[idx + 2]
}

/// Whether the three characters at `idx` also start at a position within the window before it.
pub open spec fn text_seen_before(text: Seq<char>, idx: int) -> bool {
    exists|p: int| 0 <= p && #[trigger] in_window(p, idx) && triple_at(text, p) == triple_at(text, idx)
}

/// The list under `k`, empty where there is none.
pub open spec fn text_list_of(m: Map<u128, Vec<usize>>, k: u128) -> Seq<usize> {
    if m.contains_key(k) {
        m[k]@
    } else {
        Seq::empty()
    }
}

/// The length that the search measures for the listed position `p` at `idx`: how many
/// characters from `idx` on equal those from `p` on, at most `match_cap`.
pub open spec fn text_run(text: Seq<char>, p: int, idx: int) -> int {
    run_len(text, p, idx, match_cap(text.len() as int, idx))
}

/// The position of the short-distance candidate recorded under the key of the three
/// characters at `idx`.
pub open spec fn text_short_start(text: Seq<char>, idx: int) -> int {
    text_temp_spec(text, idx)[text_key(triple_at(text, idx))] as int
}

/// The length the search gives the short-distance candidate: two characters, and then as
/// many from `idx + 2` on as equal those from the candidate on, up to `match_cap`.
pub open spec fn text_short_len(text: Seq<char>, idx: int) -> int {
    2 + run_len(text, text_short_start(text, idx), idx + 2, match_cap(text.len() as int, idx) - 2)
}

/// The pair `(d, l)` is one the search can give at `idx`: the short-distance candidate with
/// its length, or a position within the window that starts the same three characters, with
/// the length measured for it, all of whose characters repeat.
pub open spec fn text_chosen_pair(text: Seq<char>, idx: int, d: int, l: int) -> bool {
    ||| text_short_hit(text, idx) && d == idx - text_short_start(text, idx) && l == text_short_len(text, idx)
    ||| {
        &&& in_window(idx - d, idx)
        &&& triple_at(text, idx - d) == triple_at(text, idx)
        &&& l == text_run(text, idx - d, idx)
        &&& forall|k: int| 0 <= k < l ==> #[trigger] text[idx - d + k] == text[idx + k]
    }
}

/// A value held by a sequence is held after something is put in front of it.
proof fn lemma_holds_prepend(l: Seq<usize>, x: usize, pos: usize)
    requires
        l.contains(x),
    ensures
        (seq![pos] + l).contains(x),
{
    let i = choose|i: int| 0 <= i < l.len() && l[i] == x;
    assert((seq![pos] + l)[i + 1] == x);
}

/// A repeat found by `find_match`: 3 to 258 characters from `idx`, within the text,
/// reaching back between 1 and `idx` characters and at most 32768.
pub open spec fn repeat_ok(text: Seq<char>, idx: int, d: int, l: int) -> bool {
    &&& 3 <= l <= 258
    &&& 1 <= d <= idx
    &&& d <= 32768
    &&& idx + l <= text.len()
}

/// Looks for the longest earlier occurrence of the characters at `buffer_idx`: first among
/// the short-distance candidates, then among the positions listed under the key of the next
/// three characters, skipping those at or after `buffer_idx` and those more than 32768
/// back. Positions met while comparing are added to the chains. `text_len` is the length of
/// the text in bytes. Returns `(distance, length)`: the short-distance candidate's, or a
/// listed position's that measures longer; no listed position within the window measures
/// longer than the result.
fn find_match(buff: &Vec<char>, text_len: usize, buffer_idx: &usize, true_matches: &mut HashMap<u128, Vec<usize>>) -> (found:
    Option<(usize, usize)>)
    requires
        text_len == buff.len(),
        *buffer_idx <= buff.len(),
        buff.len() <= i32::MAX,
        text_chains_ok(old(true_matches)@, buff@),
    ensures
        text_chains_ok(final(true_matches)@, buff@),
        match found {
            None => true,
            Some((d, l)) => repeat_ok(buff@, *buffer_idx as int, d as int, l as int) && text_chosen_pair(
                buff@,
                *buffer_idx as int,
                d as int,
                l as int,
            ),
        },
        *buffer_idx + 2 >= buff.len() ==> found is None && final(true_matches)@ == old(true_matches)@,
        forall|k: u128, p: usize| #[trigger]
            text_list_of(old(true_matches)@, k).contains(p) ==> text_list_of(final(true_matches)@, k).contains(p),
        text_short_hit(buff@, *buffer_idx as int) ==> found is Some && found.unwrap().1 >= text_short_len(
            buff@,
            *buffer_idx as int,
        ),
        forall|p: usize|
            *buffer_idx + 2 < buff.len() && #[trigger] text_list_of(
                old(true_matches)@,
                text_key(triple_at(buff@, *buffer_idx as int)),
            ).contains(p) && in_window(p as int, *buffer_idx as int) ==> found is Some && found.unwrap().1
                >= text_run(buff@, p as int, *buffer_idx as int),
        found is Some ==> text_short_hit(buff@, *buffer_idx as int) || text_seen_before(buff@, *buffer_idx as int),
{
    let ghost text = buff@;
    let ghost idx = *buffer_idx as int;
    let ghost len = buff.len() as int;
    let ghost cap = match_cap(len, idx);
    let mut max_len: usize = 0;
    let mut curr_dist: usize = 0;
    let temp_matches = _get_temp_matches(*buffer_idx, buff);
    if *buffer_idx + 2 >= buff.len() {
        let curr_option = if max_len != 0 {
            Some((curr_dist, max_len))
        } else {
            None
        };
        return curr_option;
    }
    let next_3_bytes = (buff[*buffer_idx], buff[*buffer_idx + 1], buff[*buffer_idx + 2]);
    let next_key = triple_key(next_3_bytes.0, next_3_bytes.1, next_3_bytes.2);
    assert(next_3_bytes == triple_at(text, idx));
    let ghost m_old = true_matches@;
    match temp_matches.get(&next_key) {
        Some(index) => {
            let mut found_idx = *index;
            let start_match_idx = found_idx;
            let mut temp_buffer_idx = *buffer_idx + 2;
            assert(1 <= idx - start_match_idx <= 3);
            loop
                invariant_except_break
                    next_key == text_key(triple_at(text, idx)),
                    text_temp_spec(text, idx).contains_key(next_key),
                    start_match_idx == text_short_start(text, idx),
                    cap == match_cap(len, idx),
                    run_len(text, start_match_idx as int, idx + 2, cap - 2) == (temp_buffer_idx - idx - 2) + run_len(
                        text,
                        found_idx as int,
                        temp_buffer_idx as int,
                        cap - 2 - (temp_buffer_idx - idx - 2),
                    ),
                    (max_len != 0) == (temp_buffer_idx > idx + 2),
                    max_len != 0 ==> max_len == temp_buffer_idx - idx && curr_dist == idx - start_match_idx,
                    temp_buffer_idx > idx + 2 ==> text_short_hit(text, idx),
                    forall|p: usize| #[trigger]
                        text_list_of(m_old, next_key).contains(p) ==> text_list_of(true_matches@, next_key).contains(p),
                    forall|k: u128, p: usize| #[trigger]
                        text_list_of(m_old, k).contains(p) ==> text_list_of(true_matches@, k).contains(p),
                    text == buff@,
                    len == buff.len(),
                    text_len == len,
                    idx == *buffer_idx,
                    idx + 2 < len,
                    1 <= idx - start_match_idx <= 3,
                    idx + 2 <= temp_buffer_idx <= len,
                    temp_buffer_idx - idx <= 258,
                    found_idx == start_match_idx + (temp_buffer_idx - idx - 2),
                    text_chains_ok(true_matches@, text),
                    max_len == 0 || (max_len == temp_buffer_idx - idx && repeat_ok(
                        text,
                        idx,
                        curr_dist as int,
                        max_len as int,
                    )),
                ensures
                    text_chains_ok(true_matches@, text),
                    max_len == 0 || repeat_ok(text, idx, curr_dist as int, max_len as int),
                    forall|k: u128, p: usize| #[trigger]
                        text_list_of(m_old, k).contains(p) ==> text_list_of(true_matches@, k).contains(p),
                    (max_len != 0) == text_short_hit(text, idx),
                    max_len != 0 ==> max_len == text_short_len(text, idx) && curr_dist == idx - text_short_start(
                        text,
                        idx,
                    ),
                    forall|p: usize| #[trigger]
                        text_list_of(m_old, next_key).contains(p) ==> text_list_of(true_matches@, next_key).contains(p),
                    forall|k: u128, p: usize| #[trigger]
                        text_list_of(m_old, k).contains(p) ==> text_list_of(true_matches@, k).contains(p),
                decreases len - temp_buffer_idx,
            {
                if temp_buffer_idx >= 3 {
                    let key = triple_key(
                        buff[temp_buffer_idx - 3],
                        buff[temp_buffer_idx - 2],
                        buff[temp_buffer_idx - 1],
                    );
                    let ghost m = true_matches@;
                    add_to_chain(true_matches, key, temp_buffer_idx - 2, temp_buffer_idx - 3, Ghost(text));
                    proof {
                        assert forall|p: usize| #[trigger]
                            text_list_of(m_old, next_key).contains(p) implies text_list_of(true_matches@, next_key).contains(
                            p,
                        ) by {
                            if key == next_key && !text_list_of(m, next_key).contains((temp_buffer_idx - 2) as usize) {
                                lemma_holds_prepend(text_list_of(m, next_key), p, (temp_buffer_idx - 3) as usize);
                            }
                        }
                    }
                }
                if temp_buffer_idx < text_len {
                    let next_el = buff[found_idx];
                    if next_el != buff[temp_buffer_idx] || (temp_buffer_idx - *buffer_idx >= 258) {
                        break;
                    }
                    temp_buffer_idx += 1;
                    found_idx += 1;
                } else {
                    break;
                }
                if temp_buffer_idx - *buffer_idx >= max_len {
                    curr_dist = *buffer_idx - start_match_idx;
                    max_len = temp_buffer_idx - *buffer_idx;
                }
            }
        },
        None => {},
    }
    assert((max_len != 0) == text_short_hit(text, idx));
    let ghost m_snap = true_matches@;
    assert(forall|p: usize| #[trigger]
        text_list_of(m_old, next_key).contains(p) ==> text_list_of(m_snap, next_key).contains(p));
    match true_matches.get(&next_key) {
        Some(listed) => {
            let indices = listed.clone();
            assert(indices@ == text_list_of(m_snap, next_key));
            let mut n: usize = 0;
            while n < indices.len()
                invariant_except_break
                    forall|j: int|
                        0 <= j < n && in_window(#[trigger] indices@[j] as int, idx) ==> max_len >= text_run(
                            text,
                            indices@[j] as int,
                            idx,
                        ),
                    max_len == 0 || text_chosen_pair(text, idx, curr_dist as int, max_len as int),
                    max_len != 0 ==> text_short_hit(text, idx) || text_seen_before(text, idx),
                    text_short_hit(text, idx) ==> max_len >= text_short_len(text, idx) && max_len != 0,
                    cap == match_cap(len, idx),
                    text == buff@,
                    len == buff.len(),
                    text_len == len,
                    idx == *buffer_idx,
                    idx + 2 < len,
                    len <= i32::MAX,
                    n <= indices@.len(),
                    forall|j: int| 0 <= j < indices@.len() ==> #[trigger] indices@[j] + 2 < len && text_key(
                        triple_at(text, indices@[j] as int),
                    ) == next_key,
                    next_key == text_key(triple_at(text, idx)),
                    text_chains_ok(true_matches@, text),
                    max_len == 0 || repeat_ok(text, idx, curr_dist as int, max_len as int),
                    forall|k: u128, p: usize| #[trigger]
                        text_list_of(m_old, k).contains(p) ==> text_list_of(true_matches@, k).contains(p),
                ensures
                    text_chains_ok(true_matches@, text),
                    max_len == 0 || repeat_ok(text, idx, curr_dist as int, max_len as int),
                    forall|k: u128, p: usize| #[trigger]
                        text_list_of(m_old, k).contains(p) ==> text_list_of(true_matches@, k).contains(p),
                    max_len == 0 || text_chosen_pair(text, idx, curr_dist as int, max_len as int),
                    max_len != 0 ==> text_short_hit(text, idx) || text_seen_before(text, idx),
                    text_short_hit(text, idx) ==> max_len >= text_short_len(text, idx) && max_len != 0,
                    forall|j: int|
                        0 <= j < indices@.len() && in_window(#[trigger] indices@[j] as int, idx) ==> max_len
                            >= text_run(text, indices@[j] as int, idx),
                decreases indices@.len() - n,
            {
                let index = indices[n];
                n += 1;
                if *buffer_idx <= index || *buffer_idx - index > 32768 {
                    continue;
                }
                let mut found_idx = index;
                let start_match_idx = found_idx;
                let mut temp_buffer_idx = *buffer_idx;
                if max_len == 258 {
                    proof {
                        assert forall|j: int|
                            0 <= j < indices@.len() && in_window(#[trigger] indices@[j] as int, idx) implies max_len
                            >= text_run(text, indices@[j] as int, idx) by {
                            lemma_run_len(text, indices@[j] as int, idx, cap);
                        }
                    }
                    break;
                }
                proof {
                    lemma_text_key_injective(triple_at(text, index as int), triple_at(text, idx));
                }
                loop
                    invariant_except_break
                        text == buff@,
                        len == buff.len(),
                        text_len == len,
                        idx == *buffer_idx,
                        idx + 2 < len,
                        cap == match_cap(len, idx),
                        start_match_idx < idx,
                        start_match_idx + 2 < len,
                        triple_at(text, start_match_idx as int) == triple_at(text, idx),
                        idx <= temp_buffer_idx <= len,
                        temp_buffer_idx - idx <= 258,
                        found_idx == start_match_idx + (temp_buffer_idx - idx),
                        run_len(text, start_match_idx as int, idx, cap) == (temp_buffer_idx - idx) + run_len(
                            text,
                            found_idx as int,
                            temp_buffer_idx as int,
                            cap - (temp_buffer_idx - idx),
                        ),
                        text_chains_ok(true_matches@, text),
                        forall|k: u128, p: usize| #[trigger]
                            text_list_of(m_old, k).contains(p) ==> text_list_of(true_matches@, k).contains(p),
                    ensures
                        idx + 3 <= temp_buffer_idx <= len,
                        temp_buffer_idx - idx <= 258,
                        temp_buffer_idx - idx == text_run(text, start_match_idx as int, idx),
                        text_chains_ok(true_matches@, text),
                        forall|k: u128, p: usize| #[trigger]
                            text_list_of(m_old, k).contains(p) ==> text_list_of(true_matches@, k).contains(p),
                    decreases len - temp_buffer_idx,
                {
                    if temp_buffer_idx >= text_len {
                        break;
                    }
                    if temp_buffer_idx >= 2 {
                        let key = triple_key(buff[temp_buffer_idx - 2], buff[temp_buffer_idx - 1], buff[temp_buffer_idx]);
                        add_to_chain(true_matches, key, temp_buffer_idx - 2, temp_buffer_idx - 2, Ghost(text));
                    }
                    if buff[found_idx] != buff[temp_buffer_idx] || (temp_buffer_idx - *buffer_idx >= 258) {
                        break;
                    }
                    temp_buffer_idx += 1;
                    found_idx += 1;
                }
                proof {
                    lemma_run_len(text, start_match_idx as int, idx, cap);
                }
                if temp_buffer_idx - *buffer_idx > max_len {
                    curr_dist = *buffer_idx - start_match_idx;
                    max_len = temp_buffer_idx - *buffer_idx;
                    assert(in_window(start_match_idx as int, idx));
                    assert(idx - curr_dist == start_match_idx);
                }
            }
            proof {
                assert forall|p: usize|
                    #[trigger] text_list_of(m_old, next_key).contains(p) && in_window(p as int, idx) implies max_len
                    >= text_run(text, p as int, idx) by {
                    assert(text_list_of(m_snap, next_key).contains(p));
                    let i = choose|i: int| 0 <= i < indices@.len() && indices@[i] == p;
                    assert(in_window(indices@[i] as int, idx));
                }
            }
        },
        None => {},
    }
    proof {
        assert forall|p: usize|
            #[trigger] text_list_of(m_old, next_key).contains(p) && in_window(p as int, idx) implies max_len >= 3
            && max_len >= text_run(text, p as int, idx) by {
            let i = choose|i: int| 0 <= i < m_old[next_key]@.len() && m_old[next_key]@[i] == p;
            lemma_text_key_injective(triple_at(text, p as int), triple_at(text, idx));
            lemma_run_len(text, p as int, idx, cap);
        }
    }
    let curr_option = if max_len != 0 {
        Some((curr_dist, max_len))
    } else {
        None
    };
    curr_option
}

/// A token that `lz77_compression` may write where it stands: a character only where the
/// short-distance candidate gives no repeat, and a repeat that the search can give there.
pub open spec fn text_token_ok(text: Seq<char>, tp: (TextToken, int)) -> bool {
    match tp.0 {
        TextToken::Letter => !text_short_hit(text, tp.1),
        TextToken::Repeat(l, d) => d <= 32768 && text_chosen_pair(text, tp.1, d as int, l as int),
    }
}

/// The greedy choice at `tp`: where the three characters at `s - 2` (`s` the position of a
/// token so far, at which the compressor listed the position `s - 2`) recur at `tp`'s position
/// within the window, the token there is a repeat at least as long as the run measured from
/// `s - 2`.
pub open spec fn text_greedy(text: Seq<char>, s: int, tp: (TextToken, int)) -> bool {
    let pos = tp.1;
    s >= 2 && pos + 2 < text.len() && in_window(s - 2, pos) && triple_at(text, s - 2) == triple_at(text, pos)
        ==> match tp.0 {
        TextToken::Repeat(l, _) => l >= text_run(text, s - 2, pos),
        TextToken::Letter => false,
    }
}

/// Compresses ASCII text with LZ77: each repeat found becomes `<length,distance>` in
/// decimal, every other character stays as it is. Text of fewer than three bytes comes back
/// unchanged.
pub fn lz77_compression(buffer: &String) -> (out: String)
    requires
        buffer.is_ascii(),
        buffer@.len() <= i32::MAX,
    ensures
        exists|ts: Seq<TextToken>|
            {
                &&& #[trigger] text_parse(ts, buffer@, 0)
                &&& text_end(ts, 0) == buffer@.len()
                &&& out@ == render_tokens(ts, buffer@)
                &&& forall|i: int| 0 <= i < ts.len() ==> #[trigger] text_token_ok(buffer@, placed_text(ts, 0)[i])
                &&& forall|i: int, j: int|
                    0 <= j <= i < ts.len() ==> #[trigger] text_greedy(buffer@, placed_text(ts, 0)[j].1, placed_text(ts, 0)[i])
                &&& (forall|j: int| 0 <= j < buffer@.len() ==> #[trigger] buffer@[j] != '<') && text_repeats_true(
                    ts,
                    buffer@,
                ) ==> text_expand(out@) == Some(buffer@)
            },
{
    broadcast use vstd::string::is_ascii_spec_bytes;
    let ghost text = buffer@;
    let mut compressed: Vec<char> = Vec::new();
    let mut true_matches: HashMap<u128, Vec<usize>> = HashMap::new();
    let text_str = buffer.as_str();
    let text_len = text_str.len();
    proof {
        assert(vstd::string::is_ascii(text_str));
        assert(text_str.spec_bytes().len() == text.len());
    }
    let buff = chars_of(buffer);
    let ghost mut ts: Seq<TextToken> = Seq::empty();
    assert(placed_text(ts, 0).len() == 0);
    if text_len < 3 {
        proof {
            lemma_literal_text(text, text.len() as int);
            let lits = char_tokens(text, text.len() as int);
            assert(text.subrange(0, text.len() as int) =~= text);
            assert(text_parse(lits, buffer@, 0));
            assert forall|i: int| 0 <= i < lits.len() implies #[trigger] text_token_ok(buffer@, placed_text(lits, 0)[i]) by {
                assert(placed_text(lits, 0)[i] == (TextToken::Letter, i));
            }
            assert forall|i: int, j: int| 0 <= j <= i < lits.len() implies #[trigger] text_greedy(
                buffer@,
                placed_text(lits, 0)[j].1,
                placed_text(lits, 0)[i],
            ) by {
                assert(placed_text(lits, 0)[i] == (TextToken::Letter, i));
            }
            if (forall|j: int| 0 <= j < text.len() ==> #[trigger] text[j] != '<') && text_repeats_true(lits, text) {
                lemma_expand_rendered(lits, text);
            }
        }
        return buffer.clone();
    }
    let mut buffer_idx: usize = 0;
    while buffer_idx < buff.len()
        invariant
            text == buff@,
            text_len == buff.len(),
            buff.len() <= i32::MAX,
            buffer_idx <= buff.len(),
            text_parse(ts, text, 0),
            text_end(ts, 0) == buffer_idx,
            compressed@ == render_tokens(ts, text),
            text_chains_ok(true_matches@, text),
            placed_text(ts, 0).len() == ts.len(),
            forall|i: int| 0 <= i < ts.len() ==> #[trigger] text_token_ok(text, placed_text(ts, 0)[i]),
            forall|i: int, j: int|
                0 <= j <= i < ts.len() ==> #[trigger] text_greedy(text, placed_text(ts, 0)[j].1, placed_text(ts, 0)[i]),
            forall|j: int|
                0 <= j < ts.len() && #[trigger] placed_text(ts, 0)[j].1 >= 2 ==> text_list_of(
                    true_matches@,
                    text_key(triple_at(text, placed_text(ts, 0)[j].1 - 2)),
                ).contains((placed_text(ts, 0)[j].1 - 2) as usize),
        decreases buff.len() - buffer_idx,
    {
        let ghost ts0 = ts;
        let ghost pos = buffer_idx as int;
        let ghost m0 = true_matches@;
        if buffer_idx >= 2 {
            let key = triple_key(buff[buffer_idx - 2], buff[buffer_idx - 1], buff[buffer_idx]);
            add_to_chain(&mut true_matches, key, buffer_idx - 2, buffer_idx - 2, Ghost(text));
        }
        let ghost m1 = true_matches@;
        let matches = find_match(&buff, text_len, &buffer_idx, &mut true_matches);
        let ghost m2 = true_matches@;
        match matches {
            Some(current_match_val) => {
                let (distance, length) = current_match_val;
                compressed.push('<');
                let mut l = decimal_chars(length);
                compressed.append(&mut l);
                compressed.push(',');
                let mut d = decimal_chars(distance);
                compressed.append(&mut d);
                compressed.push('>');
                proof {
                    let t = TextToken::Repeat(length, distance);
                    lemma_push_text_token(ts, t, text);
                    assert(compressed@ =~= render_tokens(ts, text) + render_token(t, text, text_end(ts, 0)));
                    ts = ts.push(t);
                    assert(text_token_ok(text, placed_text(ts, 0)[ts.len() - 1]));
                }
                buffer_idx += length;
            },
            None => {
                let curr_byte = buff[buffer_idx];
                compressed.push(curr_byte);
                proof {
                    let t = TextToken::Letter;
                    lemma_push_text_token(ts, t, text);
                    assert(compressed@ =~= render_tokens(ts, text) + render_token(t, text, text_end(ts, 0)));
                    ts = ts.push(t);
                    assert(text_token_ok(text, placed_text(ts, 0)[ts.len() - 1]));
                }
                buffer_idx += 1;
            },
        }
        proof {
            let pl0 = placed_text(ts0, 0);
            let pl = placed_text(ts, 0);
            assert(pl == pl0.push((ts.last(), pos)));
            assert(ts.last() == (match matches {
                Some((d, l)) => TextToken::Repeat(l, d),
                None => TextToken::Letter,
            }));
            assert forall|j: int| 0 <= j < ts.len() && #[trigger] pl[j].1 >= 2 implies text_list_of(
                m1,
                text_key(triple_at(text, pl[j].1 - 2)),
            ).contains((pl[j].1 - 2) as usize) by {
                if j < ts0.len() {
                    assert(pl[j] == pl0[j]);
                    assert(text_list_of(m0, text_key(triple_at(text, pl0[j].1 - 2))).contains((pl0[j].1 - 2) as usize));
                }
            }
            assert forall|j: int| 0 <= j < ts.len() && #[trigger] pl[j].1 >= 2 implies text_list_of(
                m2,
                text_key(triple_at(text, pl[j].1 - 2)),
            ).contains((pl[j].1 - 2) as usize) by {
                assert(text_list_of(m1, text_key(triple_at(text, pl[j].1 - 2))).contains((pl[j].1 - 2) as usize));
            }
            assert forall|i: int, j: int| 0 <= j <= i < ts.len() implies #[trigger] text_greedy(text, pl[j].1, pl[i]) by {
                if i < ts0.len() {
                    assert(pl[j] == pl0[j] && pl[i] == pl0[i]);
                    assert(text_greedy(text, pl0[j].1, pl0[i]));
                } else {
                    let s = pl[j].1;
                    if s >= 2 && pos + 2 < text.len() && in_window(s - 2, pos) && triple_at(text, s - 2)
                        == triple_at(text, pos) {
                        assert(text_list_of(m1, text_key(triple_at(text, s - 2))).contains((s - 2) as usize));
                        assert(text_list_of(m1, text_key(triple_at(text, pos))).contains((s - 2) as usize));
                    }
                }
            }
        }
    }
    proof {
        if (forall|j: int| 0 <= j < text.len() ==> #[trigger] text[j] != '<') && text_repeats_true(ts, text) {
            lemma_expand_rendered(ts, text);
        }
    }
    string_of(&compressed)
}

/// The first `n` characters of a text, each as a token of its own.
pub open spec fn char_tokens(text: Seq<char>, n: int) -> Seq<TextToken>
    decreases n,
{
    if n <= 0 {
        Seq::empty()
    } else {
        char_tokens(text, n - 1).push(TextToken::Letter)
    }
}

/// A text's characters, each as a token of its own, render as the text and parse it.
proof fn lemma_literal_text(text: Seq<char>, n: int)
    requires
        0 <= n <= text.len(),
    ensures
        render_tokens(char_tokens(text, n), text) == text.subrange(0, n),
        text_parse(char_tokens(text, n), text, 0),
        text_end(char_tokens(text, n), 0) == n,
        char_tokens(text, n).len() == n,
        placed_text(char_tokens(text, n), 0).len() == n,
        forall|i: int| 0 <= i < n ==> #[trigger] placed_text(char_tokens(text, n), 0)[i] == (TextToken::Letter, i),
    decreases n,
{
    let ts = char_tokens(text, n);
    if n > 0 {
        lemma_literal_text(text, n - 1);
        let rs = char_tokens(text, n - 1);
        assert(ts.drop_last() =~= rs);
        assert(ts.len() == n);
        assert(ts.last() == TextToken::Letter);
        assert(render_tokens(ts, text) == render_tokens(rs, text) + seq![text[n - 1]]);
        assert(text.subrange(0, n) =~= text.subrange(0, n - 1) + seq![text[n - 1]]);
        assert(text_end(ts, 0) == text_end(rs, 0) + 1);
        assert(text_parse(ts, text, 0) == (text_parse(rs, text, 0) && text_token_fits(ts.last(), text, n - 1)));
        assert(placed_text(ts, 0) == placed_text(rs, 0).push((TextToken::Letter, n - 1)));
    } else {
        assert(ts.len() == 0);
        assert(render_tokens(ts, text) == Seq::<char>::empty());
        assert(text.subrange(0, 0) =~= Seq::<char>::empty());
    }
}

} // verus!
