use crate::utils::{block_to_bytes, words_bytes};
use vstd::prelude::*;

verus! {

/// The words of the first block of the first message.
pub const M0_WORDS: [u32; 16] = [
    0x02dd31d1, 0xc4eee6c5, 0x069a3d69, 0x5cf9af98, 0x87b5ca2f, 0xab7e4612, 0x3e580440, 0x897ffbb8,
    0x0634ad55, 0x02b3f409, 0x8388e483, 0x5a417125, 0xe8255108, 0x9fc9cdf7, 0xf2bd1dd9, 0x5b3c3780,
];

/// The words of the second block of the first message.
pub const M1_WORDS: [u32; 16] = [
    0xd11d0b96, 0x9c7b41dc, 0xf497d8e4, 0xd555655a, 0xc79a7335, 0x0cfdebf0, 0x66f12930, 0x8fb109d1,
    0x797f2775, 0xeb5cd530, 0xbaade822, 0x5c15cc79, 0xddcb74ed, 0x6dd3c55f, 0xd80a9bb1, 0xe3a7cc35,
];

/// The words of the first block of the second message.
pub const M0_P_WORDS: [u32; 16] = [
    0x02dd31d1, 0xc4eee6c5, 0x069a3d69, 0x5cf9af98, 0x07b5ca2f, 0xab7e4612, 0x3e580440, 0x897ffbb8,
    0x0634ad55, 0x02b3f409, 0x8388e483, 0x5a41f125, 0xe8255108, 0x9fc9cdf7, 0x72bd1dd9, 0x5b3c3780,
];

/// The words of the second block of the second message.
pub const M1_P_WORDS: [u32; 16] = [
    0xd11d0b96, 0x9c7b41dc, 0xf497d8e4, 0xd555655a, 0x479a7335, 0x0cfdebf0, 0x66f12930, 0x8fb109d1,
    0x797f2775, 0xeb5cd530, 0xbaade822, 0x5c154c79, 0xddcb74ed, 0x6dd3c55f, 0x580a9bb1, 0xe3a7cc35,
];

/// The 64 bytes of the first block of the first message.
pub fn m0() -> (bytes: Vec<u8>)
    ensures
        bytes@ == words_bytes(M0_WORDS@),
        bytes@.len() == 64,
{
    block_to_bytes(&M0_WORDS)
}

/// The 64 bytes of the second block of the first message.
pub fn m1() -> (bytes: Vec<u8>)
    ensures
        bytes@ == words_bytes(M1_WORDS@),
        bytes@.len() == 64,
{
    block_to_bytes(&M1_WORDS)
}

/// The 64 bytes of the first block of the second message.
pub fn m0_p() -> (bytes: Vec<u8>)
    ensures
        bytes@ == words_bytes(M0_P_WORDS@),
        bytes@.len() == 64,
{
    block_to_bytes(&M0_P_WORDS)
}

/// The 64 bytes of the second block of the second message.
pub fn m1_p() -> (bytes: Vec<u8>)
    ensures
        bytes@ == words_bytes(M1_P_WORDS@),
        bytes@.len() == 64,
{
    block_to_bytes(&M1_P_WORDS)
}

} // verus!
