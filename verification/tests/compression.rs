use deflate_utils::block::Lz77Token;
use deflate_utils::compare::{miniz_inflates_to, diff_buffers, roundtrip};
use deflate_utils::encode::{convert_dist, convert_length, reverse_huffman};
use deflate_utils::hashmap_lz77;
use deflate_utils::huffman::{
    block_ranges, compress, compress_in_pieces, fixed_literal_block, join_fixed_blocks, lz77_compression,
};
use deflate_utils::huffman_new::{lz77_compression_new, HashBuffers};
use deflate_utils::inflate::inflate;
use deflate_utils::text_lz77;

fn sample_text(n: usize) -> Vec<u8> {
    let words: &[&[u8]] = &[b"deflate ", b"huffman ", b"window ", b"match ", b"literal ", b"\n"];
    let mut out = Vec::new();
    let mut k: usize = 7;
    while out.len() < n {
        k = (k * 31 + 11) % 97;
        out.extend_from_slice(words[k % words.len()]);
    }
    out.truncate(n);
    out
}

#[test]
fn compress_inflates_back() {
    let data = b"hello hello hello world, hello world".to_vec();
    let out = compress(data.clone());
    assert_eq!(inflate(&out), data);
    assert!(miniz_inflates_to(&data, &out));
}

#[test]
fn compress_long_text_inflates_back() {
    let data = sample_text(20000);
    let out = compress(data.clone());
    assert!(out.len() < data.len());
    assert_eq!(inflate(&out), data);
    assert!(miniz_inflates_to(&data, &out));
}

#[test]
fn compress_two_bytes() {
    let data = vec![b'x', b'y'];
    let out = compress(data.clone());
    assert_eq!(inflate(&out), data);
}

#[test]
fn compress_one_byte_keeps_the_leading_zero() {
    // Data of fewer than two bytes is written with the leading zero byte as a literal.
    let out = compress(vec![97]);
    assert_eq!(inflate(&out), vec![0, 97]);
}

#[test]
fn compress_zero_run_is_not_a_true_back_reference() {
    // A run of zeros at the start is matched against the leading zero byte, which is not
    // part of the output: the stream does not inflate back to the data.
    let data = vec![0u8, 0, 0, 0, 0, 0];
    let out = compress(data.clone());
    assert!(!miniz_inflates_to(&data, &out));
}

#[test]
fn lz77_new_two_literals() {
    let mut bits = Vec::new();
    lz77_compression_new(vec![b'a', b'b'], &mut bits);
    let mut expected = reverse_huffman(b'a');
    expected.extend(reverse_huffman(b'b'));
    assert_eq!(bits, expected);
}

#[test]
fn lz77_new_repeat_becomes_a_match() {
    let mut bits = Vec::new();
    lz77_compression_new(b"abcabcabc".to_vec(), &mut bits);
    let mut expected = Vec::new();
    for b in b"abc" {
        expected.extend(reverse_huffman(*b));
    }
    expected.extend(convert_length(6));
    expected.extend(convert_dist(3));
    assert_eq!(bits, expected);
}

#[test]
fn lz77_new_appends_after_existing_bits() {
    let mut bits = vec![true, false];
    lz77_compression_new(vec![b'q', b'r'], &mut bits);
    assert_eq!(&bits[..2], &[true, false]);
    assert_eq!(bits.len(), 2 + reverse_huffman(b'q').len() + reverse_huffman(b'r').len());
}

#[test]
fn hash_buffers_reset_clears() {
    let mut tables = HashBuffers::default();
    tables.dict[5] = 7;
    tables.next[3] = 9;
    tables.hash[1] = 11;
    tables.reset();
    assert!(tables.dict.iter().all(|&b| b == 0));
    assert!(tables.next.iter().all(|&v| v == 0));
    assert!(tables.hash.iter().all(|&v| v == 0));
}

#[test]
fn literal_block_of_one_byte() {
    // Header bits 1,1,0, the code of 'a', eight zero bits, packed least significant bit first.
    assert_eq!(fixed_literal_block(b"a"), vec![0x4b, 0x04, 0x00]);
    assert_eq!(inflate(&fixed_literal_block(b"a")), b"a".to_vec());
}

#[test]
fn literal_block_inflates_back() {
    let data: Vec<u8> = (0u8..=255).collect();
    let out = fixed_literal_block(&data);
    assert_eq!(inflate(&out), data);
    assert!(miniz_inflates_to(&data, &out));
}

#[test]
fn block_ranges_split_into_windows() {
    assert_eq!(block_ranges(0), vec![]);
    assert_eq!(block_ranges(10), vec![(0, 10)]);
    assert_eq!(block_ranges(32768), vec![(0, 32768)]);
    assert_eq!(block_ranges(70000), vec![(0, 32768), (32768, 65536), (65536, 70000)]);
}

#[test]
fn joined_pieces_inflate_to_the_whole() {
    let data = sample_text(70000);
    let mut parts = Vec::new();
    for (start, end) in block_ranges(data.len()) {
        let mut bits = Vec::new();
        lz77_compression_new(data[start..end].to_vec(), &mut bits);
        parts.push(bits);
    }
    let out = join_fixed_blocks(parts);
    assert_eq!(inflate(&out), data);
    assert!(miniz_inflates_to(&data, &out));
}

#[test]
fn fx_chains_compressor_roundtrip() {
    let data = b"aaaa".to_vec();
    let mut bits = vec![true, true, false];
    lz77_compression(data.clone(), &mut bits);
    let mut expected = vec![true, true, false];
    expected.extend(reverse_huffman(b'a'));
    expected.extend(convert_length(3));
    expected.extend(convert_dist(1));
    assert_eq!(bits, expected);
}

#[test]
fn fx_chains_compressor_on_text() {
    let data = b"the rain in spain falls mainly on the plain".to_vec();
    let mut bits = Vec::new();
    lz77_compression(data.clone(), &mut bits);
    let mut literal_bits = Vec::new();
    for b in &data {
        literal_bits.extend(reverse_huffman(*b));
    }
    assert!(bits.len() < literal_bits.len());
}

#[test]
fn hashmap_compress_roundtrip() {
    let data = b"aaaa".to_vec();
    let out = hashmap_lz77::compress(data.clone());
    assert_eq!(inflate(&out), data);
    let data = b"the rain in spain falls mainly on the plain".to_vec();
    let out = hashmap_lz77::compress(data.clone());
    assert!(miniz_inflates_to(&data, &out));
}

#[test]
fn text_lz77_writes_repeats() {
    assert_eq!(text_lz77::lz77_compression(&"aaaa".to_string()), "a<3,1>");
    assert_eq!(text_lz77::lz77_compression(&"ab".to_string()), "ab");
    assert_eq!(text_lz77::lz77_compression(&"abcd".to_string()), "abcd");
}

#[test]
fn diff_buffers_reports_first_differences() {
    assert_eq!(diff_buffers(vec![1, 2, 3], vec![1, 5, 3, 4]), vec![(1, 2, 5)]);
    assert_eq!(diff_buffers(vec![], vec![1]), vec![]);
    let a = vec![0u8; 60];
    let mut b = vec![0u8; 60];
    b[10] = 1;
    b[55] = 1;
    assert_eq!(diff_buffers(a, b), vec![(10, 0, 1)]);
}

#[test]
fn miniz_check_rejects_garbage() {
    assert!(!miniz_inflates_to(b"abc", &[0xff, 0xff, 0xff]));
    roundtrip(b"some data to compress");
}

#[test]
fn tokens_are_plain_values() {
    let t = Lz77Token::Match(3, 1);
    match t {
        Lz77Token::Match(l, d) => assert_eq!((l, d), (3, 1)),
        Lz77Token::Literal(_) => panic!(),
    }
}

#[test]
fn long_run_is_cut_into_matches_of_at_most_258() {
    let data = vec![b'a'; 1000];
    let out = compress(data.clone());
    assert_eq!(inflate(&out), data);
    assert!(miniz_inflates_to(&data, &out));
}

#[test]
fn repeats_further_than_the_window_are_not_matched() {
    let mut data = b"bbb".to_vec();
    data.extend(sample_text(32766));
    data.extend(b"bbb");
    let out = compress(data.clone());
    assert!(miniz_inflates_to(&data, &out));
}

#[test]
fn hashmap_short_candidates_can_claim_a_false_repeat() {
    // The distance-3 candidate is checked against the byte five back, so on this input the
    // vector-chained compressor claims a repeat of four bytes that is not there.
    let data = b"abaabab".to_vec();
    let out = hashmap_lz77::compress(data.clone());
    assert!(!miniz_inflates_to(&data, &out));
}

/// Data of 33807 nonzero bytes: pseudo-random filler in which no three bytes repeat, with
/// `abcZZfghQ` at 999, `abcdeR` at 1999, `abc` at 2999 and `abcdefghi` at 33767.
fn window_edge_data() -> Vec<u8> {
    let reserved = b"abcdefghiQRZ";
    let pool: Vec<u8> = (1..=255u8).filter(|c| !reserved.contains(c)).collect();
    let mut plant = std::collections::HashMap::new();
    for (at, s) in [(1000usize, &b"abcZZfghQ"[..]), (2000, &b"abcdeR"[..]), (3000, &b"abc"[..]), (33768, &b"abcdefghi"[..])] {
        for (k, c) in s.iter().enumerate() {
            plant.insert(at + k, *c);
        }
    }
    let mut buf: Vec<u8> = vec![0];
    let mut seen = std::collections::HashSet::new();
    let mut x: u64 = 12345;
    for i in 1..33808usize {
        let c = match plant.get(&i) {
            Some(c) => *c,
            None => loop {
                x = (x * 1103515245 + 12345) % (1u64 << 31);
                let c = pool[((x >> 16) as usize) % pool.len()];
                if i < 3 || !seen.contains(&(buf[i - 2], buf[i - 1], c)) {
                    break c;
                }
            },
        };
        buf.push(c);
        if i >= 3 {
            seen.insert((buf[i - 2], buf[i - 1], c));
        }
    }
    buf[1..].to_vec()
}

#[test]
fn data_past_the_window_can_get_a_false_match() {
    // At 33767 the candidate exactly one window back has had its window bytes overwritten by
    // the bytes read ahead for a nearer candidate, so its first five bytes are not compared:
    // a match of 8 bytes at distance 32768 is claimed where only 3 of them repeat.
    let data = window_edge_data();
    assert_eq!(data.len(), 33807);
    assert!(data.iter().all(|&b| b != 0));
    let out = compress(data.clone());
    let back = inflate(&out);
    assert_eq!(back.len(), data.len());
    assert_ne!(back, data);
    assert_eq!(&data[33767..33775], b"abcdefgh");
    assert_eq!(&back[33767..33775], b"abcZZfgh");
    assert_eq!(&back[..33767], &data[..33767]);
    assert!(!miniz_inflates_to(&data, &out));
}

#[test]
fn fx_chains_short_candidates_can_claim_a_false_repeat() {
    // The same short-distance candidates as in the vector-chained compressor: on this input
    // the stream made of its tokens does not inflate back to the data.
    let data = b"abaabab".to_vec();
    let mut bits = Vec::new();
    lz77_compression(data.clone(), &mut bits);
    let out = join_fixed_blocks(vec![bits]);
    assert!(!miniz_inflates_to(&data, &out));
}

#[test]
fn zeros_past_the_window_are_not_matched_to_the_leading_zero() {
    // Three zeros after 40000 nonzero bytes: the candidate at the leading zero byte lies
    // 40001 bytes back, outside the window, so the zeros are written as literals.
    let mut data = Vec::new();
    let mut x: u64 = 12345;
    for _ in 0..40000 {
        x = (x * 1103515245 + 12345) % (1u64 << 31);
        data.push(1 + ((x >> 16) % 255) as u8);
    }
    data.extend([0, 0, 0]);
    data.extend(b"xyz");
    let mut bits = Vec::new();
    lz77_compression_new(data.clone(), &mut bits);
    let mut expected_end = Vec::new();
    for b in [0u8, 0, 0, b'x', b'y', b'z'] {
        expected_end.extend(reverse_huffman(b));
    }
    assert!(bits.ends_with(&expected_end));
    assert!(miniz_inflates_to(&data, &compress(data.clone())));
}

#[test]
fn fx_chains_take_the_longest_listed_run() {
    // At the last "abcde" the listed positions 0 and 5 give runs of 4 and 5 bytes: the
    // longer run is the match.
    let data = b"abcdXabcdeYabcde".to_vec();
    let mut bits = Vec::new();
    lz77_compression(data.clone(), &mut bits);
    let mut expected_end = convert_length(5);
    expected_end.extend(convert_dist(6));
    assert!(bits.ends_with(&expected_end));
}

#[test]
fn rolling_chains_take_the_longest_probed_run() {
    // At the last "abcde" the chain holds the newer "abcd" (a run of 4) before the older
    // "abcde" (a run of 5): the probe goes on and the longer run is the match.
    let data = b"abcdeXabcdYabcde".to_vec();
    let mut bits = Vec::new();
    lz77_compression_new(data.clone(), &mut bits);
    let mut expected_end = convert_length(5);
    expected_end.extend(convert_dist(11));
    assert!(bits.ends_with(&expected_end));
}

#[test]
fn pieces_join_into_one_stream_that_inflates_back() {
    let data = sample_text(70000);
    let out = compress_in_pieces(&data);
    let mut parts = Vec::new();
    for (start, end) in block_ranges(data.len()) {
        let mut bits = Vec::new();
        lz77_compression_new(data[start..end].to_vec(), &mut bits);
        parts.push(bits);
    }
    assert_eq!(out, join_fixed_blocks(parts));
    assert!(miniz_inflates_to(&data, &out));
    assert_eq!(inflate(&out), data);
}

#[test]
fn a_full_window_piece_inflates_back() {
    let data = sample_text(32768);
    assert!(miniz_inflates_to(&data, &compress(data.clone())));
    let out = compress_in_pieces(&sample_text(65536));
    assert!(miniz_inflates_to(&sample_text(65536), &out));
}

#[test]
fn match_lengths_are_the_runs_they_copy() {
    // "abcd" recurs followed by a different byte: the match is exactly 4 bytes, not cut short.
    let data = b"abcdXabcdY".to_vec();
    let mut bits = Vec::new();
    lz77_compression_new(data.clone(), &mut bits);
    let mut expected = Vec::new();
    for b in b"abcdX" {
        expected.extend(reverse_huffman(*b));
    }
    expected.extend(convert_length(4));
    expected.extend(convert_dist(5));
    expected.extend(reverse_huffman(b'Y'));
    assert_eq!(bits, expected);
}

fn expand_text(s: &str) -> String {
    let chars: Vec<char> = s.chars().collect();
    let mut out: Vec<char> = Vec::new();
    let mut i = 0;
    while i < chars.len() {
        if chars[i] != '<' {
            out.push(chars[i]);
            i += 1;
            continue;
        }
        let comma = i + chars[i..].iter().position(|c| *c == ',').unwrap();
        let close = comma + chars[comma..].iter().position(|c| *c == '>').unwrap();
        let l: usize = chars[i + 1..comma].iter().collect::<String>().parse().unwrap();
        let d: usize = chars[comma + 1..close].iter().collect::<String>().parse().unwrap();
        for _ in 0..l {
            let c = out[out.len() - d];
            out.push(c);
        }
        i = close + 1;
    }
    out.into_iter().collect()
}

#[test]
fn rendered_text_expands_back() {
    for text in ["the rain in spain falls mainly on the plain", "hello hello hello world", "ab"] {
        let out = text_lz77::lz77_compression(&text.to_string());
        assert_eq!(expand_text(&out), text);
    }
    assert_eq!(text_lz77::lz77_compression(&"xyzwxyzw".to_string()), "xyzw<4,4>");
}
