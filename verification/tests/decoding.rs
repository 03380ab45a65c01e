use deflate_utils::bits::{get_bit, get_bit_reverse, get_n_bits_reverse, get_num, get_num_reverse};
use deflate_utils::inflate::reverse_bits_of_bytes;
use deflate_utils::dynamic::convert_code_lengths_matrix;
use deflate_utils::encode::{convert_dist, convert_length, reverse_huffman};
use deflate_utils::fixed::{decode_deflate, get_lower_bound, get_num_buffer};
use deflate_utils::AsciiNum;

#[test]
fn test_get_num() {
    let bits = [false, false, false, false, false, false, false, true];
    assert_eq!(get_num(&bits.to_vec()), 1);

    let bits = [false, false, false, true, false, true, true, true];
    assert_eq!(get_num(&bits.to_vec()), 23);

    let bits = [true, true, true, true, true, true, true, true];
    assert_eq!(get_num(&bits.to_vec()), 255);
}

#[test]
fn test_num_from_buff() {
    let buff = [0b10010001];

    let a = get_num_buffer(&buff, &mut 0);
    match a {
        AsciiNum::Ascii(value) => {
            assert_eq!(value, 97);
        }
        AsciiNum::LenDist(_value) => {
            assert!(false);
        }
    }

    let buff = [0b00000100, 0b0000];
    let mut idx = 0;

    let a = get_num_buffer(&buff, &mut idx);
    match a {
        AsciiNum::Ascii(_value) => {
            assert!(false);
        }
        AsciiNum::LenDist(value) => {
            assert_eq!(value, (4, 1));
        }
    }
}

#[test]
fn test_convert_len() {
    assert_eq!(get_lower_bound(4, 277), 67);
    assert_eq!(get_lower_bound(4, 279), 99);
    assert_eq!(get_lower_bound(4, 279), 99);
    assert_eq!(get_lower_bound(5, 284), 227);
    assert_eq!(get_lower_bound(2, 269), 19);
    assert_eq!(get_lower_bound(1, 265), 11);
    assert_eq!(get_lower_bound(4, 279), 99);
}

#[test]
fn test_decode_fixed_huffman_deflate() {
    let mut idx = 3;

    let bits: [u8; 5] = [0b11010010, 0b00110010, 0b00100000, 0b10000000, 0b00000000];
    let mut decoded = Vec::new();
    decode_deflate(&bits, &mut idx, &mut decoded);
    assert_eq!(decoded, vec![97, 97, 97, 97, 97, 97]);

    let bits = [
        0b11010010, 0b00110010, 0b01010010, 0b01110010, 0b10010010, 0b00100001, 0b01000111,
        0b00101010, 0b01110100, 0b00000000,
    ];

    idx = 3;
    let mut decoded = Vec::new();
    decode_deflate(&bits, &mut idx, &mut decoded);
    println!("{:?}", decoded);
}

#[test]
fn test_decode_fixed_huffman_deflate2() {
    let mut idx = 3;

    let bits: [u8; 5] = [0b11010010, 0b00110010, 0b00100000, 0b10000000, 0b00000000];
    let mut decoded = Vec::new();
    decode_deflate(&bits, &mut idx, &mut decoded);
    assert_eq!(decoded, vec![97, 97, 97, 97, 97, 97]);

    let bits = [
        0b11010010, 0b00110010, 0b01010010, 0b01110010, 0b10010010, 0b00100001, 0b01000111,
        0b00101010, 0b01110100, 0b00010100, 0b01110000, 0b00000000, 0b00000000,
    ];

    idx = 3;
    // a, b, c, d, a, b, c, d, a, b, c, d, e, \n, c, d, e, \n, c, d, e, \n, c, d, e,
    let mut decoded = Vec::new();
    decode_deflate(&bits, &mut idx, &mut decoded);
    println!("{:?}", decoded);
}

#[test]
fn test_get_codebook() {
    // uses the empty one
    let alphabet: [u16; 18] = [16, 17, 18, 0, 8, 7, 9, 6, 10, 5, 11, 4, 12, 3, 13, 2, 14, 1];

    let code_lengths_stream: [u8; 7] =
        [0b00000010, 0b00100000, 0b00000000, 0b00000000, 0b00000000, 0b00000000, 0b00001000];

    let mut code_lengths: [u16; 18] = [200; 18];

    for i in 0..alphabet.len() {
        let num = get_num_reverse(&get_n_bits_reverse(&code_lengths_stream, i * 3, 3));
        code_lengths[i] = num;
    }

    println!("{:?}", code_lengths);
    let code_lengths = code_lengths.to_vec();

    let mat = convert_code_lengths_matrix(&code_lengths, alphabet.to_vec());

    let row_start = 0;
    let row_end = 3;
    let col_start = 0;
    let col_end = 5;

    for row in row_start..row_end {
        let mut line = String::new();
        for col in col_start..col_end {
            line.push_str(&format!("{} ", mat[row][col]));
        }
        println!("{}", line);
    }
}

#[test]
fn test_decoding_dynamic_one_distance() {
    let block_header = [0b10000000, 0b00011100];
    let mut idx = 0;
    let hlit = get_num_reverse(&get_n_bits_reverse(&block_header, idx, 5));
    idx += 5;
    println!("{:?}", get_n_bits_reverse(&block_header, idx, 5));

    let hdist = get_num_reverse(&get_n_bits_reverse(&block_header, idx, 5)) + 1;
    idx += 5;

    let hclen = get_num_reverse(&get_n_bits_reverse(&block_header, idx, 4)) + 4;

    assert_eq!(hclen, 18);
    assert_eq!(257 + hlit, 258);
    assert_eq!(hdist, 1);
}

#[test]
fn check_len_convert() {
    let l = convert_length(258);
    println!("{:?}", l);

    println!("lenghts fa {}", l.len());
}

#[test]
fn check_dist_convert() {
    let l = convert_dist(3);
    println!("{:?}", l);

    println!("dist{}", l.len());
}

#[test]
fn test_huffman_num() {
    let num = 255;
    println!("{:?}", reverse_huffman(num));

    let num = 145;
    println!("{:?}", reverse_huffman(num));

    let num = 0;
    println!("{:?}", reverse_huffman(num));

    let num = 95;
    println!("{:?}", reverse_huffman(num));
}

#[test]
fn reversed_bytes_swap_the_bit_order() {
    let buf = [0b1000_0001u8, 0b0110_1100, 0xF0];
    let rev = reverse_bits_of_bytes(&buf);
    assert_eq!(rev, vec![0b1000_0001u8, 0b0011_0110, 0x0F]);
    for idx in 0..24 {
        assert_eq!(get_bit(&rev, idx), get_bit_reverse(&buf, idx));
        assert_eq!(get_bit_reverse(&rev, idx), get_bit(&buf, idx));
    }
}

#[test]
fn eight_bits_rebuild_the_byte() {
    let buf = [0u8, 1, 0x5A, 0xFF, 0x80];
    for j in 0..buf.len() {
        let mut low_first: u8 = 0;
        let mut high_first: u8 = 0;
        for i in 0..8 {
            low_first |= (get_bit(&buf, 8 * j + i) as u8) << i;
            high_first = (high_first << 1) | get_bit_reverse(&buf, 8 * j + i) as u8;
        }
        assert_eq!(low_first, buf[j]);
        assert_eq!(high_first, buf[j]);
    }
}
