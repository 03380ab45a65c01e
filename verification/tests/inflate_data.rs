use deflate_utils::inflate::inflate;
use deflate_utils::checked::try_inflate;

/// Packs a bit stream written as '0'/'1' characters (spaces ignored) into bytes, the first
/// bit in the least significant place.
fn stream(bits: &str) -> Vec<u8> {
    let bits: Vec<bool> = bits.chars().filter(|c| *c == '0' || *c == '1').map(|c| c == '1').collect();
    let mut out = vec![0u8; (bits.len() + 7) / 8];
    for (i, b) in bits.iter().enumerate() {
        if *b {
            out[i / 8] |= 1 << (i % 8);
        }
    }
    out
}

#[test]
fn fixed_huffman_empty() {
    assert_eq!(inflate(&stream("1 10 0000000")), Vec::<u8>::new());
}

#[test]
fn fixed_huffman_literals() {
    let s = stream("1 10 00110000 10110000 10111111 110010000 111000000 111111111 0000000");
    assert_eq!(inflate(&s), vec![0x00, 0x80, 0x8F, 0x90, 0xC0, 0xFF]);
}

#[test]
fn fixed_huffman_non_overlapping_run() {
    let s = stream("1 10 00110000 00110001 00110010 0000001 00010 0000000");
    assert_eq!(inflate(&s), vec![0x00, 0x01, 0x02, 0x00, 0x01, 0x02]);
}

#[test]
fn fixed_huffman_overlapping_run0() {
    let s = stream("1 10 00110001 0000010 00000 0000000");
    assert_eq!(inflate(&s), vec![0x01, 0x01, 0x01, 0x01, 0x01]);
}

#[test]
fn fixed_huffman_overlapping_run1() {
    let s = stream("1 10 10111110 10111111 0000011 00001 0000000");
    assert_eq!(inflate(&s), vec![0x8E, 0x8F, 0x8E, 0x8F, 0x8E, 0x8F, 0x8E]);
}

#[test]
fn dynamic_huffman_one_distance_code() {
    let s = stream(
        "1 01 10000 00000 0111 \
         000 000 010 010 000 000 000 000 000 000 000 000 000 000 000 010 000 010 \
         00 10 111111111 111001011 01 10 01 \
         10 11 0 0",
    );
    assert_eq!(inflate(&s), vec![0x01, 0x01, 0x01, 0x01]);
}

#[test]
fn dynamic_huffman_empty() {
    let s = stream(
        "1 01 00000 10000 1111 \
         000 000 100 000 000 000 000 000 000 000 000 000 000 000 000 000 000 100 000 \
         0 11111111 10101011 0 0 0 \
         1",
    );
    assert_eq!(inflate(&s), Vec::<u8>::new());
}

#[test]
fn dynamic_huffman_empty_no_distance_code() {
    let s = stream(
        "1 01 00000 00000 0111 \
         000 000 100 010 000 000 000 000 000 000 000 000 000 000 000 000 000 010 \
         01111111 00101011 11 11 10 \
         1",
    );
    assert_eq!(inflate(&s), Vec::<u8>::new());
}

#[test]
fn checked_inflate_accepts_well_formed_streams() {
    let s = stream("1 10 00110000 10110000 10111111 110010000 111000000 111111111 0000000");
    assert_eq!(try_inflate(&s), Some(vec![0x00, 0x80, 0x8F, 0x90, 0xC0, 0xFF]));
    let d = stream(
        "1 01 10000 00000 0111 \
         000 000 010 010 000 000 000 000 000 000 000 000 000 000 000 010 000 010 \
         00 10 111111111 111001011 01 10 01 \
         10 11 0 0",
    );
    assert_eq!(try_inflate(&d), Some(vec![0x01, 0x01, 0x01, 0x01]));
}

#[test]
fn checked_inflate_rejects_reserved_and_stored_block_types() {
    assert_eq!(try_inflate(&stream("1 11 0000000")), None);
    assert_eq!(try_inflate(&stream("1 00 0000000")), None);
}

#[test]
fn checked_inflate_rejects_truncated_streams() {
    assert_eq!(try_inflate(&[]), None);
    // A fixed block whose end-of-block code never comes.
    assert_eq!(try_inflate(&stream("1 10 00110000 00110000")), None);
    // A non-final block with nothing after it.
    assert_eq!(try_inflate(&stream("0 10 0000000")), None);
}

#[test]
fn checked_inflate_rejects_distance_before_start() {
    // A match at distance 1 before any byte was written.
    assert_eq!(try_inflate(&stream("1 10 0000001 00000 0000000")), None);
}

#[test]
fn dynamic_huffman_repeat_across_length_boundary() {
    // 258 literal/length and 2 distance code lengths, read as one sequence: the last repeat
    // code (17, three zeros) covers symbol 257 and both distance codes.
    let s = stream(
        "1 01 10000 10000 0111 \
         000 010 010 000 000 000 000 000 000 000 000 000 000 000 000 010 000 010 \
         01 01 11 1111111 11 1001011 00 10 000 \
         10 0",
    );
    assert!(deflate_utils::compare::miniz_inflates_to(&[0x00], &s));
    assert_eq!(try_inflate(&s), Some(vec![0x00]));
    assert_eq!(inflate(&s), vec![0x00]);
}
