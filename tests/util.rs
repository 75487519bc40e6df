use utils::util::{
    get_retarget_height_from_block_height, to_hex_string, to_little_endian,
    to_rift_optimized_block, BlockHeader,
};

#[test]
fn little_endian_reverses_bytes() {
    assert_eq!(to_little_endian([1u8, 2, 3, 4]), [4u8, 3, 2, 1]);
    assert_eq!(to_little_endian([9u8]), [9u8]);
    let empty: [u8; 0] = [];
    assert_eq!(to_little_endian(empty), empty);
}

#[test]
fn hex_string_of_bytes() {
    let mut bytes = [0u8; 32];
    for (i, b) in bytes.iter_mut().enumerate() {
        *b = i as u8;
    }
    bytes[31] = 0xff;
    assert_eq!(
        to_hex_string(&bytes),
        "000102030405060708090a0b0c0d0e0f101112131415161718191a1b1c1d1eff"
    );
    assert_eq!(to_hex_string(&[0u8; 32]), "0".repeat(64));
}

#[test]
fn retarget_height() {
    assert_eq!(get_retarget_height_from_block_height(858564), 856800);
    assert_eq!(get_retarget_height_from_block_height(0), 0);
    assert_eq!(get_retarget_height_from_block_height(2016), 2016);
    assert_eq!(get_retarget_height_from_block_height(4031), 2016);
}

#[test]
fn optimized_block_fields_are_little_endian() {
    let header = BlockHeader {
        version: 0x2000_0000,
        prev_blockhash: [7u8; 32],
        merkle_root: [9u8; 32],
        time: 0x0102_0304,
        bits: 0x1703_1abe,
        nonce: 0xdead_beef,
    };
    let block = to_rift_optimized_block(858564, &header);
    assert_eq!(block.height, 858564);
    assert_eq!(block.version, [0, 0, 0, 0x20]);
    assert_eq!(block.prev_blockhash, [7u8; 32]);
    assert_eq!(block.merkle_root, [9u8; 32]);
    assert_eq!(block.time, [4, 3, 2, 1]);
    assert_eq!(block.bits, [0xbe, 0x1a, 0x03, 0x17]);
    assert_eq!(block.nonce, [0xef, 0xbe, 0xad, 0xde]);
    let negative = BlockHeader { version: -1, ..header };
    assert_eq!(to_rift_optimized_block(1, &negative).version, [0xff; 4]);
}
