use vstd::prelude::*;
use vstd::string::StringExecFns;

verus! {

/// Number of blocks between two difficulty retargets.
pub const RETARGET_INTERVAL: u64 = 2016;

/// Reverses the byte order of an array.
pub fn to_little_endian<const N: usize>(input: [u8; N]) -> (r: [u8; N])
    ensures
        r@.len() == N,
        forall|i: int| 0 <= i < N ==> r@[i] == input@[N - 1 - i],
{
    let mut output = [0u8; N];
    let mut i: usize = 0;
    while i < N
        invariant
            i <= N,
            output@.len() == N,
            input@.len() == N,
            forall|j: int| 0 <= j < i ==> output@[N - 1 - j] == input@[j],
        decreases N - i,
    {
        output[N - 1 - i] = input[i];
        i = i + 1;
    }
    assert forall|k: int| 0 <= k < N implies output@[k] == input@[N - 1 - k] by {
        let j = N - 1 - k;
        assert(N - 1 - j == k);
    }
    output
}

/// The lowercase hexadecimal digits, indexed by value.
pub open spec fn hex_digits() -> Seq<char> {
    seq!['0', '1', '2', '3', '4', '5', '6', '7', '8', '9', 'a', 'b', 'c', 'd', 'e', 'f']
}

/// Two lowercase hex digits per byte, high nibble first.
pub open spec fn hex_of(bytes: Seq<u8>) -> Seq<char> {
    Seq::new(
        2 * bytes.len(),
        |i: int|
            if i % 2 == 0 {
                hex_digits()[(bytes[i / 2] / 16) as int]
            } else {
                hex_digits()[(bytes[i / 2] % 16) as int]
            },
    )
}

fn hex_digit(n: u8) -> (r: &'static str)
    requires
        n < 16,
    ensures
        r@ == seq![hex_digits()[n as int]],
{
    match n {
        0 => { proof { reveal_strlit("0"); } "0" },
        1 => { proof { reveal_strlit("1"); } "1" },
        2 => { proof { reveal_strlit("2"); } "2" },
        3 => { proof { reveal_strlit("3"); } "3" },
        4 => { proof { reveal_strlit("4"); } "4" },
        5 => { proof { reveal_strlit("5"); } "5" },
        6 => { proof { reveal_strlit("6"); } "6" },
        7 => { proof { reveal_strlit("7"); } "7" },
        8 => { proof { reveal_strlit("8"); } "8" },
        9 => { proof { reveal_strlit("9"); } "9" },
        10 => { proof { reveal_strlit("a"); } "a" },
        11 => { proof { reveal_strlit("b"); } "b" },
        12 => { proof { reveal_strlit("c"); } "c" },
        13 => { proof { reveal_strlit("d"); } "d" },
        14 => { proof { reveal_strlit("e"); } "e" },
        _ => { proof { reveal_strlit("f"); } "f" },
    }
}

/// Writes a 32-byte value as 64 lowercase hexadecimal digits.
pub fn to_hex_string(bytes: &[u8; 32]) -> (r: String)
    ensures
        r@ == hex_of(bytes@),
{
    let mut s = String::new();
    let mut i: usize = 0;
    while i < 32
        invariant
            i <= 32,
            bytes@.len() == 32,
            s@ =~= hex_of(bytes@).subrange(0, 2 * i as int),
        decreases 32 - i,
    {
        let b = bytes[i];
        s.append(hex_digit(b / 16));
        s.append(hex_digit(b % 16));
        i = i + 1;
    }
    s
}

/// The height of the last difficulty retarget at or below `block_height`.
pub fn get_retarget_height_from_block_height(block_height: u64) -> (r: u64)
    ensures
        r == block_height - block_height % RETARGET_INTERVAL,
{
    block_height - (block_height % RETARGET_INTERVAL)
}

/// The four bytes of `x`, least significant first.
pub open spec fn le_bytes(x: u32) -> Seq<u8> {
    seq![x as u8, (x >> 8u32) as u8, (x >> 16u32) as u8, (x >> 24u32) as u8]
}

/// Writes `x` as four bytes, least significant first.
pub fn u32_to_le_bytes(x: u32) -> (r: [u8; 4])
    ensures
        r@ == le_bytes(x),
{
    let r = [x as u8, (x >> 8u32) as u8, (x >> 16u32) as u8, (x >> 24u32) as u8];
    assert(r@ =~= le_bytes(x));
    r
}

/// The fields of a block header, as consensus defines them.
#[derive(Clone, Copy, Debug)]
pub struct BlockHeader {
    pub version: i32,
    pub prev_blockhash: [u8; 32],
    pub merkle_root: [u8; 32],
    pub time: u32,
    pub bits: u32,
    pub nonce: u32,
}

/// A block header with its height, each integer field held as its
/// little-endian bytes.
#[derive(Clone, Copy, Debug)]
pub struct RiftOptimizedBlock {
    pub height: u64,
    pub version: [u8; 4],
    pub prev_blockhash: [u8; 32],
    pub merkle_root: [u8; 32],
    pub time: [u8; 4],
    pub bits: [u8; 4],
    pub nonce: [u8; 4],
}

/// Packs a header and its height into the compact block form.
pub fn to_rift_optimized_block(height: u64, header: &BlockHeader) -> (r: RiftOptimizedBlock)
    ensures
        r.height == height,
        r.version@ == le_bytes(header.version as u32),
        r.prev_blockhash == header.prev_blockhash,
        r.merkle_root == header.merkle_root,
        r.time@ == le_bytes(header.time),
        r.bits@ == le_bytes(header.bits),
        r.nonce@ == le_bytes(header.nonce),
{
    RiftOptimizedBlock {
        height,
        version: u32_to_le_bytes(header.version as u32),
        prev_blockhash: header.prev_blockhash,
        merkle_root: header.merkle_root,
        time: u32_to_le_bytes(header.time),
        bits: u32_to_le_bytes(header.bits),
        nonce: u32_to_le_bytes(header.nonce),
    }
}

} // verus!
