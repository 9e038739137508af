use md5_collision::consts::{M0_P_WORDS, M1_P_WORDS, M1_WORDS};
use md5_collision::md5::{transform, INITIAL_STATE};
use md5_collision::md5_attack::transform_attack;
use md5_collision::search::{
    attempt, find_m1_m1_p, m0_init, m0_p_init, pair_block, rand_m1, same_state, search_plan,
    worker_seeds, SearchOutcome, SeededRng, M0_P_STATE, M0_STATE,
};

const SEED_0_BLOCK: [u32; 16] = [
    0x8f59a58e, 0xff4e856d, 0x8f47d2a4, 0x91909760, 0xb14820de, 0x29356b1f, 0xc87f9829, 0xb1b295a2,
    0xbc44be57, 0x1a03ac0a, 0xdd273c7e, 0x1de32d8e, 0x21bdf63a, 0xd9c81ec5, 0xdeeefa1a, 0x0e655799,
];

fn exhausted_state(outcome: SearchOutcome) -> u64 {
    match outcome {
        SearchOutcome::Exhausted { state } => state,
        SearchOutcome::Found { .. } => panic!("a pair was found"),
    }
}

#[test]
fn seeded_rng_draws_the_words_of_its_seed() {
    let mut rng = SeededRng::with_seed(0);
    assert_eq!(rng.get_seed(), 0);
    assert_eq!(rng.u32(), 0x8f59a58e);
    assert_eq!(rng.get_seed(), 0xa0761d6478bd642f);
    assert_eq!(rng.u32(), 0xff4e856d);
    assert_eq!(rng.get_seed(), 0x40ec3ac8f17ac85e);
    assert_eq!(rng.u32(), 0x8f47d2a4);
    assert_eq!(rng.u32(), 0x91909760);
    assert_eq!(rng.get_seed(), 0x81d87591e2f590bc);
}

#[test]
fn seeded_rng_draws_what_one_outside_generator_draws() {
    for seed in [0u64, 1, 7, 0xdeadbeef, u64::MAX] {
        let outside = fastrand::Rng::with_seed(seed);
        let mut rng = SeededRng::with_seed(seed);
        for _ in 0..100 {
            assert_eq!(rng.u32(), outside.u32(..));
            assert_eq!(rng.get_seed(), outside.get_seed());
        }
    }
}

#[test]
fn same_seed_same_words_other_seed_other_words() {
    let mut left = SeededRng::with_seed(42);
    let mut right = SeededRng::with_seed(42);
    let mut other = SeededRng::with_seed(43);
    let mut differs = false;
    for _ in 0..32 {
        let word = left.u32();
        assert_eq!(word, right.u32());
        if word != other.u32() {
            differs = true;
        }
    }
    assert!(differs);
}

#[test]
fn rand_m1_fills_all_16_words() {
    let mut rng = SeededRng::with_seed(0);
    let mut block = [0u32; 16];
    rand_m1(&mut block, &mut rng);
    assert_eq!(block, SEED_0_BLOCK);
    assert_eq!(rng.get_seed(), 0x0761d6478bd642f0);
    let mut rng = SeededRng::with_seed(7);
    rand_m1(&mut block, &mut rng);
    assert_eq!(
        block,
        [
            0xe24a18c1, 0xfc31c738, 0x7112e858, 0x579476d7, 0xee14f210, 0xa8885688, 0x2b48b2fc,
            0x2a36fe8c, 0xd8118737, 0xb70e81f9, 0x3e52ce35, 0xb0c5fb5d, 0xbce8cc5d, 0x3ddf3411,
            0x7ae25758, 0xcaea01a4
        ]
    );
    assert_eq!(rng.get_seed(), 0x0761d6478bd642f7);
}

#[test]
fn init_functions_set_the_attack_states() {
    let mut state = [0u32; 4];
    m0_init(&mut state);
    assert_eq!(state, [0x52589324, 0x3093d7ca, 0x2a06dc54, 0x20c5be06]);
    assert_eq!(state, M0_STATE);
    m0_p_init(&mut state);
    assert_eq!(state, [0xd2589324, 0xb293d7ca, 0xac06dc54, 0xa2c5be06]);
    assert_eq!(state, M0_P_STATE);
    let mut after = INITIAL_STATE;
    transform(&mut after, &M0_P_WORDS);
    assert_eq!(after, M0_P_STATE);
}

#[test]
fn pair_block_changes_words_4_11_and_14_only() {
    let mut block = [0u32; 16];
    for i in 0..16 {
        block[i] = 0x1000 * (i as u32 + 1);
    }
    let paired = pair_block(&block);
    for i in 0..16 {
        if i == 4 {
            assert_eq!(paired[i], block[i] + 0x80);
        } else if i == 11 {
            assert_eq!(paired[i], block[i] - 0x20);
        } else if i == 14 {
            assert_eq!(paired[i], block[i] + 0x80);
        } else {
            assert_eq!(paired[i], block[i]);
        }
    }
}

#[test]
fn pair_block_wraps_modulo_two_to_the_32() {
    let mut block = [0u32; 16];
    block[4] = 0xffffff80;
    block[11] = 0x1f;
    block[14] = 0xffffffff;
    let paired = pair_block(&block);
    assert_eq!(paired[4], 0);
    assert_eq!(paired[11], 0xffffffff);
    assert_eq!(paired[14], 0x7f);
    assert_eq!(paired[0], 0);
}

#[test]
fn same_state_compares_all_four_words() {
    assert!(same_state(&[1, 2, 3, 4], &[1, 2, 3, 4]));
    assert!(!same_state(&[1, 2, 3, 4], &[0, 2, 3, 4]));
    assert!(!same_state(&[1, 2, 3, 4], &[1, 0, 3, 4]));
    assert!(!same_state(&[1, 2, 3, 4], &[1, 2, 0, 4]));
    assert!(!same_state(&[1, 2, 3, 4], &[1, 2, 3, 0]));
}

#[test]
fn published_blocks_reach_one_state() {
    let mut state1 = M0_STATE;
    let mut state2 = M0_P_STATE;
    transform(&mut state1, &M1_WORDS);
    transform(&mut state2, &M1_P_WORDS);
    assert!(same_state(&state1, &state2));
    assert_eq!(state1, [0x9603161f, 0xa30f9dbf, 0x9f65ffbc, 0xf41fc7ef]);
}

#[test]
fn attempt_that_does_not_collide_finds_nothing() {
    assert!(attempt(&M1_WORDS).is_none());
    assert!(attempt(&SEED_0_BLOCK).is_none());
    let mut state1 = M0_STATE;
    let mut m1 = SEED_0_BLOCK;
    transform_attack(&mut state1, &mut m1);
    let mut state2 = M0_P_STATE;
    transform(&mut state2, &pair_block(&m1));
    assert!(!same_state(&state1, &state2));
}

#[test]
fn search_without_attempts_leaves_the_generator_alone() {
    assert_eq!(exhausted_state(find_m1_m1_p(0, 0)), 0);
    assert_eq!(exhausted_state(find_m1_m1_p(12345, 0)), 12345);
}

#[test]
fn search_that_runs_out_tells_where_the_generator_stands() {
    assert_eq!(exhausted_state(find_m1_m1_p(0, 1)), 0x0761d6478bd642f0);
    assert_eq!(exhausted_state(find_m1_m1_p(0, 100)), 0xe237b3f29fb225c0);
    assert_eq!(exhausted_state(find_m1_m1_p(42, 1000)), 0xd62d077a3cf579aa);
}

#[test]
fn search_is_decided_by_its_seed() {
    let first = exhausted_state(find_m1_m1_p(99, 500));
    let second = exhausted_state(find_m1_m1_p(99, 500));
    assert_eq!(first, second);
    assert_ne!(first, exhausted_state(find_m1_m1_p(100, 500)));
}

#[test]
fn search_resumed_is_the_longer_search() {
    let reached = exhausted_state(find_m1_m1_p(5, 300));
    let resumed = exhausted_state(find_m1_m1_p(reached, 700));
    assert_eq!(resumed, exhausted_state(find_m1_m1_p(5, 1000)));
}

#[test]
fn found_pair_would_collide_and_differ_as_asked() {
    match find_m1_m1_p(1, 2000) {
        SearchOutcome::Found { m1, m1_p } => {
            let mut state1 = M0_STATE;
            let mut state2 = M0_P_STATE;
            transform(&mut state1, &m1);
            transform(&mut state2, &m1_p);
            assert_eq!(state1, state2);
            assert_eq!(m1_p, pair_block(&m1));
        },
        SearchOutcome::Exhausted { state } => {
            let mut rng = SeededRng::with_seed(1);
            let mut block = [0u32; 16];
            for _ in 0..2000 {
                rand_m1(&mut block, &mut rng);
            }
            assert_eq!(state, rng.get_seed());
        },
    }
}

#[test]
fn worker_seeds_are_the_worker_indices() {
    assert_eq!(worker_seeds(0), Vec::<u64>::new());
    assert_eq!(worker_seeds(1), vec![0]);
    assert_eq!(worker_seeds(5), vec![0, 1, 2, 3, 4]);
}

#[test]
fn search_plan_has_one_distinct_seed_for_each_worker() {
    let seeds = search_plan();
    assert!(!seeds.is_empty());
    assert_eq!(seeds[0], 0);
    assert_eq!(seeds.len(), num_cpus::get());
    for (i, seed) in seeds.iter().enumerate() {
        assert_eq!(*seed, i as u64);
    }
}
