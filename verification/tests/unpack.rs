//! Tests of the bit unpackers, the byte-order swaps, and the tile
//! generators of the lane tiers.

use nombrilo::unpack;
use nombrilo::unpack::portable;
use nombrilo::unpack::wide;

#[test]
fn test_tiled_32() {
    let expected: Vec<u8> = vec![3, 2, 1, 0, 7, 6, 5, 4, 11, 10, 9, 8, 15, 14, 13, 12];
    assert_eq!(wide::tiled(&[3, 2, 1, 0], 16), expected);
}

#[test]
fn test_tiled_64() {
    let expected: Vec<u8> = vec![7, 6, 5, 4, 3, 2, 1, 0, 15, 14, 13, 12, 11, 10, 9, 8];
    assert_eq!(wide::tiled(&[7, 6, 5, 4, 3, 2, 1, 0], 16), expected);
}

#[test]
fn test_swap_endianness_64bit() {
    let input = [
        0x0123456789abcdef_u64.to_be_bytes(),
        0xfedcba9876543210_u64.to_be_bytes(),
    ]
    .concat();
    let expected = [
        0x0123456789abcdef_u64.to_le_bytes(),
        0xfedcba9876543210_u64.to_le_bytes(),
    ]
    .concat();
    assert_eq!(unpack::swap_endianness_64bit(&input), expected);
}

#[test]
fn test_unpack4_le() {
    // nybbles 0 through 15 packed into a little endian long, then repeated
    let input: [u8; 16] = [
        0x10, 0x32, 0x54, 0x76, 0x98, 0xba, 0xdc, 0xfe, 0x10, 0x32, 0x54, 0x76, 0x98, 0xba,
        0xdc, 0xfe,
    ];
    let expected: [u16; 32] = [
        0x0, 0x1, 0x2, 0x3, 0x4, 0x5, 0x6, 0x7, 0x8, 0x9, 0xa, 0xb, 0xc, 0xd, 0xe, 0xf, 0x0,
        0x1, 0x2, 0x3, 0x4, 0x5, 0x6, 0x7, 0x8, 0x9, 0xa, 0xb, 0xc, 0xd, 0xe, 0xf,
    ];
    assert_eq!(wide::unpack4_le(&input, 8), expected);
    assert_eq!(wide::unpack4_le(&input, 16), expected);
}

#[test]
fn test_unpack4_be() {
    // nybbles 0 through 15 packed into a big endian long, then repeated
    let input: [u8; 16] = [
        0xfe, 0xdc, 0xba, 0x98, 0x76, 0x54, 0x32, 0x10, 0xfe, 0xdc, 0xba, 0x98, 0x76, 0x54,
        0x32, 0x10,
    ];
    let expected: [u16; 32] = [
        0x0, 0x1, 0x2, 0x3, 0x4, 0x5, 0x6, 0x7, 0x8, 0x9, 0xa, 0xb, 0xc, 0xd, 0xe, 0xf, 0x0,
        0x1, 0x2, 0x3, 0x4, 0x5, 0x6, 0x7, 0x8, 0x9, 0xa, 0xb, 0xc, 0xd, 0xe, 0xf,
    ];
    assert_eq!(wide::unpack4_be(&input, 8), expected);
    assert_eq!(wide::unpack4_be(&input, 16), expected);
}

#[test]
fn test_unpack5_le() {
    // quintets 0 through 23 packed into two little endian longs
    let input = [
        0b00000101_10101001_00101000_00111001_10001010_01000001_10001000_00100000_u64
            .to_le_bytes(),
        0b00001011_11011010_10110100_10011100_10100011_00000111_10111001_10101100_u64
            .to_le_bytes(),
    ]
    .concat();
    let expected: [u16; 24] = [
        0, 1, 2, 3, 4, 5, 6, 7, 8, 9, 10, 11, 12, 13, 14, 15, 16, 17, 18, 19, 20, 21, 22, 23,
    ];
    assert_eq!(wide::unpack5_le(&input), expected);
}

#[test]
fn test_unpack5_be() {
    // quintets 0 through 23 packed into two big endian longs
    let input = [
        0b00000101_10101001_00101000_00111001_10001010_01000001_10001000_00100000_u64
            .to_be_bytes(),
        0b00001011_11011010_10110100_10011100_10100011_00000111_10111001_10101100_u64
            .to_be_bytes(),
    ]
    .concat();
    let expected: [u16; 24] = [
        0, 1, 2, 3, 4, 5, 6, 7, 8, 9, 10, 11, 12, 13, 14, 15, 16, 17, 18, 19, 20, 21, 22, 23,
    ];
    assert_eq!(wide::unpack5_be(&input), expected);
}

#[test]
fn test_tiled_multiple() {
    let tile_pattern = [0, 1, 2, 3];
    let expected: Vec<u8> = vec![0, 1, 2, 3, 4, 5, 6, 7, 8, 9, 10, 11, 12, 13, 14, 15];
    assert_eq!(portable::tiled(&tile_pattern, tile_pattern.len(), 16), expected);
}

#[test]
fn test_tiled_non_multiple() {
    let tile_pattern = [0, 1, 2, 3, 4];
    let expected: Vec<u8> = vec![0, 1, 2, 3, 4, 5, 6, 7, 8, 9, 10, 11, 12, 13, 14, 15];
    assert_eq!(portable::tiled(&tile_pattern, tile_pattern.len(), 16), expected);
}

#[test]
fn test_tiled_with_offset_multiple() {
    let tile_pattern = [0, 1, 2, 3];
    let expected: Vec<u8> = vec![4, 5, 6, 7, 8, 9, 10, 11, 12, 13, 14, 15, 16, 17, 18, 19];
    assert_eq!(
        portable::tiled_with_offset(&tile_pattern, 4, tile_pattern.len(), 16),
        expected
    );
}

#[test]
fn test_tiled_with_offset_non_multiple() {
    let tile_pattern = [0, 1, 2, 3, 4];
    let expected: Vec<u8> = vec![4, 5, 6, 7, 8, 9, 10, 11, 12, 13, 14, 15, 16, 17, 18, 19];
    assert_eq!(
        portable::tiled_with_offset(&tile_pattern, 4, tile_pattern.len(), 16),
        expected
    );
}

#[test]
fn test_tiled_with_offset_no_offset_multiple() {
    let tile_pattern = [0, 1, 2, 3];
    let expected: Vec<u8> = vec![0, 1, 2, 3, 4, 5, 6, 7, 8, 9, 10, 11, 12, 13, 14, 15];
    assert_eq!(
        portable::tiled_with_offset(&tile_pattern, 0, tile_pattern.len(), 16),
        expected
    );
}

#[test]
fn test_tiled_with_offset_no_offset_non_multiple() {
    let tile_pattern = [0, 1, 2, 3, 4];
    let expected: Vec<u8> = vec![0, 1, 2, 3, 4, 5, 6, 7, 8, 9, 10, 11, 12, 13, 14, 15];
    assert_eq!(
        portable::tiled_with_offset(&tile_pattern, 0, tile_pattern.len(), 16),
        expected
    );
}

#[test]
fn test_scalar_and_portable_tiers_agree() {
    let input: [u8; 16] = [
        0x10, 0x32, 0x54, 0x76, 0x98, 0xba, 0xdc, 0xfe, 0x01, 0x23, 0x45, 0x67, 0x89, 0xab,
        0xcd, 0xef,
    ];
    for big_endian in [false, true] {
        assert_eq!(
            unpack::unpack4(&input, big_endian),
            portable::unpack4(&input, big_endian)
        );
        assert_eq!(
            unpack::unpack5(&input, big_endian),
            portable::unpack5(&input, big_endian)
        );
    }
    assert_eq!(unpack::unpack4(&input, false), wide::unpack4_le(&input, 8));
    assert_eq!(unpack::unpack4(&input, true), wide::unpack4_be(&input, 16));
}

#[test]
fn test_swap32_involution() {
    let input: Vec<u8> = (0u8..32).collect();
    let once = unpack::swap_endianness_32bit(&input);
    let twice = unpack::swap_endianness_32bit(&once);
    assert_eq!(twice, input);
}

#[test]
fn test_swap64_involution() {
    let input: Vec<u8> = (0u8..32).collect();
    let once = unpack::swap_endianness_64bit(&input);
    let twice = unpack::swap_endianness_64bit(&once);
    assert_eq!(twice, input);
}

#[test]
fn test_empty_and_ragged_buffers_unpack_to_nothing() {
    assert_eq!(unpack::unpack4(&[], false), Vec::<u16>::new());
    assert_eq!(unpack::unpack4(&[1, 2, 3], true), Vec::<u16>::new());
    assert_eq!(unpack::unpack5(&[], true), Vec::<u16>::new());
    assert_eq!(unpack::unpack5(&[1, 2, 3, 4, 5], false), Vec::<u16>::new());
    assert_eq!(unpack::swap_endianness_32bit(&[1, 2]), Vec::<u8>::new());
    assert_eq!(unpack::swap_endianness_64bit(&[1, 2, 3, 4]), Vec::<u8>::new());
}
