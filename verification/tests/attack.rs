use md5_collision::consts::{m1, M0_WORDS, M1_WORDS};
use md5_collision::md5::{run_steps, transform, words_of_block, Regs, INITIAL_STATE};
use md5_collision::md5_attack::{
    correct, correction, transform_attack, CARRY_MASKS, CLEAR_MASKS, SET_MASKS,
};
use md5_collision::search::M0_STATE;

const SPREAD: [u32; 16] = [
    0x9e3779b9, 0x3c6ef372, 0xdaa66d2b, 0x78dde6e4, 0x1715609d, 0xb54cda56, 0x5384540f, 0xf1bbcdc8,
    0x8ff34781, 0x2e2ac13a, 0xcc623af3, 0x6a99b4ac, 0x08d12e65, 0xa708a81e, 0x454021d7, 0xe3779b90,
];

fn counting() -> [u32; 16] {
    let mut block = [0u32; 16];
    for i in 0..16 {
        block[i] = i as u32;
    }
    block
}

fn scrambled(seed: u32) -> [u32; 16] {
    let mut block = [0u32; 16];
    let mut x = seed;
    for i in 0..16 {
        x = x.wrapping_mul(1664525).wrapping_add(1013904223);
        block[i] = x;
    }
    block
}

#[test]
fn correction_table_holds_the_published_masks() {
    assert_eq!(correction(0).clear, 0x0a000820);
    assert_eq!(correction(0).set, 0x84200000);
    assert_eq!(correction(0).carry, 0);
    assert_eq!(correction(1).clear, 0x02208026);
    assert_eq!(correction(1).set, 0x8c000800);
    assert_eq!(correction(1).carry, 0x701f10c0);
    assert_eq!(correction(11).clear, 0x0007e000);
    assert_eq!(correction(11).set, 0x80081080);
    assert_eq!(correction(11).carry, 0x7f000000);
    assert_eq!(correction(15).clear, 0x80000000);
    assert_eq!(correction(15).set, 0x20000000);
    assert_eq!(correction(15).carry, 0);
    for i in 0..16 {
        assert_eq!(CLEAR_MASKS[i] & SET_MASKS[i], 0);
        assert_eq!(CLEAR_MASKS[i] & CARRY_MASKS[i], 0);
        assert_eq!(SET_MASKS[i] & CARRY_MASKS[i], 0);
    }
}

#[test]
fn correct_clears_sets_and_carries() {
    let c = correction(1);
    let out = correct(0xffffffff, 0, c);
    assert_eq!(out, 0xffffffff & !0x02208026 & !0x701f10c0);
    let out = correct(0, 0xffffffff, c);
    assert_eq!(out, 0x8c000800 | 0x701f10c0);
    let out = correct(0x12345678, 0x9abcdef0, c);
    assert_eq!(out & c.clear, 0);
    assert_eq!(out & c.set, c.set);
    assert_eq!(out & c.carry, 0x9abcdef0 & c.carry);
    let free = !(c.clear | c.set | c.carry);
    assert_eq!(out & free, 0x12345678 & free);
    assert_eq!(correct(out, 0x9abcdef0, c), out);
}

#[test]
fn transform_attack_on_the_counting_block() {
    let mut state = M0_STATE;
    let mut block = counting();
    transform_attack(&mut state, &mut block);
    assert_eq!(
        block,
        [
            0xc1000000, 0x0bff20c0, 0xfc8bdc10, 0xe3dad65b, 0x16e85206, 0x1d869f05, 0x462048f6,
            0xbe0df9d3, 0x81ff0005, 0x27f03811, 0x88e0c007, 0x0c01fc9c, 0x0ff618cb, 0x087ba075,
            0xfffbf48e, 0x0000008f
        ]
    );
    assert_eq!(state, [0x85425dbe, 0x03008706, 0xf3cd3e8a, 0xaa483b6a]);
}

#[test]
fn transform_attack_on_a_spread_block() {
    let mut state = M0_STATE;
    let mut block = SPREAD;
    transform_attack(&mut state, &mut block);
    assert_eq!(
        block,
        [
            0x5f3f79b9, 0x3c0c33d2, 0x5af0ab21, 0xc49df8a3, 0xb56574b6, 0xfcfbbb76, 0x58649d0e,
            0xadc5cbd1, 0x90ff4781, 0x4a0b1111, 0xb4833aef, 0x5ed9b850, 0x18ed4ca5, 0xaefbe87a,
            0x05403757, 0xe3779b90
        ]
    );
    assert_eq!(state, [0xf3ddd1d2, 0x716e615e, 0x54572525, 0x30b23f8c]);
    let mut state = INITIAL_STATE;
    let mut block = SPREAD;
    transform_attack(&mut state, &mut block);
    assert_eq!(
        block,
        [
            0x9e3fb9b9, 0xba07d271, 0xda9a671f, 0x14d248bc, 0xc84594a6, 0x0d735945, 0x9764d906,
            0xadbdcbcf, 0x0dfb4882, 0x6603194a, 0xae43faf3, 0x7f59b470, 0x09ef40a4, 0xa78408b2,
            0x053bead6, 0xe3779e10
        ]
    );
    assert_eq!(state, [0xac845647, 0xe755c97c, 0xcf67f9a0, 0xc154e25d]);
}

#[test]
fn ordinary_transform_of_the_corrected_block_gives_the_same_state() {
    for seed in 0..200u32 {
        let start = [seed, seed.wrapping_mul(0x9e3779b9), !seed, seed ^ 0x55555555];
        let mut state = start;
        let mut block = scrambled(seed);
        transform_attack(&mut state, &mut block);
        let mut plain = start;
        transform(&mut plain, &block);
        assert_eq!(plain, state);
    }
}

#[test]
fn ordinary_first_round_on_the_corrected_block_shows_the_forced_bits() {
    for seed in 0..200u32 {
        let start = [seed ^ 0x01234567, seed.wrapping_add(0x89abcdef), !seed, seed << 7];
        let mut state = start;
        let mut block = scrambled(seed.wrapping_add(1000));
        transform_attack(&mut state, &mut block);
        let regs = Regs { a: start[0], b: start[1], c: start[2], d: start[3] };
        for i in 0..16 {
            let before = run_steps(regs, &block, 0, i);
            let after = run_steps(regs, &block, 0, i + 1);
            let c = correction(i);
            assert_eq!(after.b & c.clear, 0);
            assert_eq!(after.b & c.set, c.set);
            assert_eq!(after.b & c.carry, before.b & c.carry);
        }
    }
}

#[test]
fn a_corrected_block_is_left_as_it_is() {
    for seed in 0..50u32 {
        let start = [seed, 1, 2, 3];
        let mut state = start;
        let mut block = scrambled(seed);
        transform_attack(&mut state, &mut block);
        let mut again_state = start;
        let mut again = block;
        transform_attack(&mut again_state, &mut again);
        assert_eq!(again, block);
        assert_eq!(again_state, state);
    }
}

#[test]
fn the_published_second_block_already_shows_the_forced_bits() {
    let mut state = M0_STATE;
    let mut block = M1_WORDS;
    transform_attack(&mut state, &mut block);
    assert_eq!(block, M1_WORDS);
    assert_eq!(state, [0x9603161f, 0xa30f9dbf, 0x9f65ffbc, 0xf41fc7ef]);
    let bytes = m1();
    let mut raw = [0u8; 64];
    raw.copy_from_slice(&bytes);
    assert_eq!(words_of_block(&raw), M1_WORDS);
}

#[test]
fn the_attack_states_are_the_states_after_the_first_blocks() {
    let mut state = INITIAL_STATE;
    transform(&mut state, &M0_WORDS);
    assert_eq!(state, M0_STATE);
}
