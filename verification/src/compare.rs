//! Comparing outputs: the first differing bytes of two buffers, and checks against the
//! `miniz_oxide` compressor and decompressor.
use vstd::prelude::*;

verus! {

/// The positions below `n` where `a` and `b` differ, with both bytes, in increasing order.
pub open spec fn diffs(a: Seq<u8>, b: Seq<u8>, n: int) -> Seq<(usize, u8, u8)>
    decreases n,
{
    if n <= 0 {
        Seq::empty()
    } else if a[n - 1] != b[n - 1] {
        diffs(a, b, n - 1).push(((n - 1) as usize, a[n - 1], b[n - 1]))
    } else {
        diffs(a, b, n - 1)
    }
}

/// The smallest of three numbers.
pub open spec fn min3(x: int, y: int, z: int) -> int {
    if x <= y && x <= z {
        x
    } else if y <= z {
        y
    } else {
        z
    }
}

/// Law: the differences below `n` list exactly the positions below `n` where the buffers
/// differ, each once with both bytes, in increasing order of position.
pub proof fn lemma_diffs_exact(a: Seq<u8>, b: Seq<u8>, n: int)
    requires
        0 <= n <= a.len(),
        n <= b.len(),
        n <= usize::MAX,
    ensures
        forall|i: int|
            0 <= i < n && a[i] != b[i] ==> exists|k: int|
                0 <= k < diffs(a, b, n).len() && #[trigger] diffs(a, b, n)[k] == (i as usize, a[i], b[i]),
        forall|k: int|
            0 <= k < diffs(a, b, n).len() ==> {
                let (i, x, y) = #[trigger] diffs(a, b, n)[k];
                &&& i < n
                &&& a[i as int] != b[i as int]
                &&& x == a[i as int]
                &&& y == b[i as int]
            },
        forall|k1: int, k2: int|
            0 <= k1 < k2 < diffs(a, b, n).len() ==> (#[trigger] diffs(a, b, n)[k1]).0 < (#[trigger] diffs(
                a,
                b,
                n,
            )[k2]).0,
    decreases n,
{
    if n > 0 {
        lemma_diffs_exact(a, b, n - 1);
        let d0 = diffs(a, b, n - 1);
        let d = diffs(a, b, n);
        assert forall|i: int| 0 <= i < n && a[i] != b[i] implies exists|k: int|
            0 <= k < d.len() && #[trigger] d[k] == (i as usize, a[i], b[i]) by {
            if i < n - 1 {
                let k = choose|k: int| 0 <= k < d0.len() && #[trigger] d0[k] == (i as usize, a[i], b[i]);
                assert(d[k] == d0[k]);
            } else {
                assert(d[d.len() - 1] == (i as usize, a[i], b[i]));
            }
        }
        assert forall|k: int| 0 <= k < d.len() implies {
            let (i, x, y) = #[trigger] d[k];
            &&& i < n
            &&& a[i as int] != b[i as int]
            &&& x == a[i as int]
            &&& y == b[i as int]
        } by {
            if k < d0.len() {
                assert(d[k] == d0[k]);
            }
        }
        assert forall|k1: int, k2: int| 0 <= k1 < k2 < d.len() implies (#[trigger] d[k1]).0 < (#[trigger] d[k2]).0 by {
            if k2 < d0.len() {
                assert(d[k1] == d0[k1] && d[k2] == d0[k2]);
            } else {
                assert(d[k1] == d0[k1]);
            }
        }
    }
}

/// Among the first 50 positions held by both buffers, those where they differ, with both
/// bytes.
pub fn diff_buffers(buf1: Vec<u8>, buf2: Vec<u8>) -> (d: Vec<(usize, u8, u8)>)
    ensures
        d@ == diffs(buf1@, buf2@, min3(50, buf1@.len() as int, buf2@.len() as int)),
        forall|i: int|
            0 <= i < min3(50, buf1@.len() as int, buf2@.len() as int) && buf1@[i] != buf2@[i] ==> exists|k: int|
                0 <= k < d@.len() && #[trigger] d@[k] == (i as usize, buf1@[i], buf2@[i]),
        forall|k: int|
            0 <= k < d@.len() ==> {
                let (i, x, y) = #[trigger] d@[k];
                &&& i < min3(50, buf1@.len() as int, buf2@.len() as int)
                &&& buf1@[i as int] != buf2@[i as int]
                &&& x == buf1@[i as int]
                &&& y == buf2@[i as int]
            },
{
    let n = if buf1.len() <= 50 && buf1.len() <= buf2.len() {
        buf1.len()
    } else if 50 <= buf2.len() {
        50
    } else {
        buf2.len()
    };
    let mut d: Vec<(usize, u8, u8)> = Vec::new();
    let mut i: usize = 0;
    while i < n
        invariant
            n == min3(50, buf1@.len() as int, buf2@.len() as int),
            i <= n,
            d@ == diffs(buf1@, buf2@, i as int),
        decreases n - i,
    {
        let b1 = buf1[i];
        let b2 = buf2[i];
        if b1 != b2 {
            d.push((i, b1, b2));
        }
        i += 1;
    }
    proof {
        lemma_diffs_exact(buf1@, buf2@, n as int);
    }
    d
}

/// What `miniz_oxide`'s `compress_to_vec` makes of `data` at level `level`.
pub uninterp spec fn miniz_deflated(data: Seq<u8>, level: u8) -> Seq<u8>;

/// What `miniz_oxide`'s `decompress_to_vec` makes of `data`: the bytes, or `None` on an error.
pub uninterp spec fn miniz_inflated(data: Seq<u8>) -> Option<Seq<u8>>;

/// Compresses `data` with `miniz_oxide::deflate::compress_to_vec`; its result is named, as
/// the crate's algorithm is not restated here.
#[verifier::external_body]
fn deflate_with_miniz(data: &[u8], level: u8) -> (out: Vec<u8>)
    ensures
        out@ == miniz_deflated(data@, level),
{
    miniz_oxide::deflate::compress_to_vec(data, level)
}

/// Decompresses a raw DEFLATE stream with `miniz_oxide::inflate::decompress_to_vec`, its
/// error turned into `None`; its result is named, as the crate's algorithm is not restated.
#[verifier::external_body]
fn inflate_with_miniz(data: &[u8]) -> (out: Option<Vec<u8>>)
    ensures
        match out {
            Some(v) => miniz_inflated(data@) == Some(v@),
            None => miniz_inflated(data@) is None,
        },
{
    match miniz_oxide::inflate::decompress_to_vec(data) {
        Ok(v) => Some(v),
        Err(_) => None,
    }
}

/// Compresses `data` with `miniz_oxide` at level 1 and discards the result.
pub fn roundtrip(data: &[u8]) {
    let _compressed = deflate_with_miniz(data, 1);
}

/// Whether `miniz_oxide` decompresses `compressed` without error to exactly `expected`.
pub fn miniz_inflates_to(expected: &[u8], compressed: &[u8]) -> (same: bool)
    ensures
        same == (miniz_inflated(compressed@) == Some(expected@)),
{
    match inflate_with_miniz(compressed) {
        Some(decompressed) => {
            let same = bytes_equal(expected, decompressed.as_slice());
            same
        },
        None => false,
    }
}

/// Whether two byte slices are equal.
fn bytes_equal(a: &[u8], b: &[u8]) -> (same: bool)
    ensures
        same == (a@ == b@),
{
    if a.len() != b.len() {
        return false;
    }
    let mut i: usize = 0;
    while i < a.len()
        invariant
            a@.len() == b@.len(),
            i <= a@.len(),
            forall|k: int| 0 <= k < i ==> a@[k] == b@[k],
        decreases a@.len() - i,
    {
        if a[i] != b[i] {
            return false;
        }
        i += 1;
    }
    assert(a@ =~= b@);
    true
}

} // verus!
