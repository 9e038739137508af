use crate::md5::{
    block_words, compress, lemma_state_collision_is_digest_collision, transform, INITIAL_STATE,
};
use crate::md5_attack::{attack_block, transform_attack};
use crate::utils::{lemma_block_of_words_bytes, lemma_words_bytes, same_digest, words_bytes};
use vstd::prelude::*;

verus! {

/// The state that the first message has reached after its first block.
pub const M0_STATE: [u32; 4] = [0x52589324, 0x3093d7ca, 0x2a06dc54, 0x20c5be06];

/// The state that the second message has reached after its first block.
pub const M0_P_STATE: [u32; 4] = [0xd2589324, 0xb293d7ca, 0xac06dc54, 0xa2c5be06];

/// What one draw of a 32-bit word does to a generator of `fastrand` that is
/// in state `state`: the state it is left in, and the word drawn.
pub uninterp spec fn rng_step(state: u64) -> (u64, u32);

/// Draws one word from a generator in a given state. The body makes a
/// generator of `fastrand` with `Rng::with_seed`, which puts it in the state
/// handed over, draws with `Rng::u32` over the full range, and reads the
/// state back with `Rng::get_seed`. The contract claims that state and word
/// depend on the state handed over and on nothing else.
#[verifier::external_body]
fn rng_draw(state: u64) -> (r: (u64, u32))
    ensures
        r == rng_step(state),
{
    let rng = fastrand::Rng::with_seed(state);
    let word = rng.u32(..);
    (rng.get_seed(), word)
}

/// How many workers the machine offers, as `num_cpus::get` reports it. The
/// contract claims what the documentation of `get` promises: the number is
/// at least 1. Which number it is depends on the machine, and nothing more
/// is claimed of it.
#[verifier::external_body]
fn available_workers() -> (workers: usize)
    ensures
        workers >= 1,
{
    num_cpus::get()
}

/// The state of a generator after `n` draws.
pub open spec fn drawn_state(state: u64, n: nat) -> u64
    decreases n,
{
    if n == 0 {
        state
    } else {
        rng_step(drawn_state(state, (n - 1) as nat)).0
    }
}

/// The block that 16 draws fill: word `i` is the draw number `i`.
pub open spec fn drawn_block(state: u64) -> Seq<u32> {
    Seq::new(16, |i: int| rng_step(drawn_state(state, i as nat)).1)
}

/// The block paired with `m1`: word 4 raised by 0x80, word 11 lowered by
/// 0x20, word 14 raised by 0x80, all modulo 2^32, the other words the same.
pub open spec fn paired_block(m1: Seq<u32>) -> Seq<u32> {
    Seq::new(
        16,
        |i: int|
            if i == 4 {
                m1[4].wrapping_add(0x80)
            } else if i == 11 {
                m1[11].wrapping_sub(0x20)
            } else if i == 14 {
                m1[14].wrapping_add(0x80)
            } else {
                m1[i]
            },
    )
}

/// Whether `m1`, absorbed after the first block of the first message, and
/// `m1_p`, absorbed after the first block of the second, reach one state.
pub open spec fn collides(m1: Seq<u32>, m1_p: Seq<u32>) -> bool {
    compress(M0_STATE@, m1) == compress(M0_P_STATE@, m1_p)
}

/// What one attempt on the drawn block `random` finds: the block that the
/// differential transform makes of it and the block paired with that one,
/// if the two collide.
pub open spec fn attempted(random: Seq<u32>) -> Option<(Seq<u32>, Seq<u32>)> {
    let m1 = attack_block(M0_STATE@, random);
    let m1_p = paired_block(m1);
    if collides(m1, m1_p) {
        Some((m1, m1_p))
    } else {
        None
    }
}

/// How a search ends, over sequences.
pub enum Searched {
    Found { m1: Seq<u32>, m1_p: Seq<u32> },
    Exhausted { state: u64 },
}

/// How a search of at most `attempts` attempts ends when the generator
/// starts in `state`: with the pair of the first attempt that finds one, or
/// with the state that the generator is left in.
pub open spec fn searched(state: u64, attempts: nat) -> Searched
    decreases attempts,
{
    if attempts == 0 {
        Searched::Exhausted { state }
    } else {
        match attempted(drawn_block(state)) {
            Some((m1, m1_p)) => Searched::Found { m1, m1_p },
            None => searched(drawn_state(state, 16), (attempts - 1) as nat),
        }
    }
}

/// A source of 32-bit words that a seed decides.
pub struct SeededRng {
    state: u64,
}

impl View for SeededRng {
    type V = u64;

    /// The state that the next draw starts from.
    closed spec fn view(&self) -> u64 {
        self.state
    }
}

impl SeededRng {
    /// A source in the state `seed`.
    pub fn with_seed(seed: u64) -> (rng: SeededRng)
        ensures
            rng@ == seed,
    {
        SeededRng { state: seed }
    }

    /// The state that the next draw starts from.
    pub fn get_seed(&self) -> (state: u64)
        ensures
            state == self@,
    {
        self.state
    }

    /// Draws a word.
    pub fn u32(&mut self) -> (word: u32)
        ensures
            (final(self)@, word) == rng_step(old(self)@),
    {
        let (state, word) = rng_draw(self.state);
        self.state = state;
        word
    }
}

/// How a search ends.
#[derive(Clone, Copy, Debug)]
pub enum SearchOutcome {
    /// A block and the block paired with it, which collide.
    Found { m1: [u32; 16], m1_p: [u32; 16] },
    /// No attempt found a pair; `state` is where the generator stands.
    Exhausted { state: u64 },
}

impl View for SearchOutcome {
    type V = Searched;

    open spec fn view(&self) -> Searched {
        match *self {
            SearchOutcome::Found { m1, m1_p } => Searched::Found { m1: m1@, m1_p: m1_p@ },
            SearchOutcome::Exhausted { state } => Searched::Exhausted { state },
        }
    }
}

/// Fills `m1` with 16 words drawn from `rng`.
pub fn rand_m1(m1: &mut [u32; 16], rng: &mut SeededRng)
    ensures
        final(m1)@ == drawn_block(old(rng)@),
        final(rng)@ == drawn_state(old(rng)@, 16),
{
    let ghost start = rng@;
    let mut i: usize = 0;
    while i < 16
        invariant
            i <= 16,
            rng@ == drawn_state(start, i as nat),
            forall|j: int| 0 <= j < i ==> m1@[j] == drawn_block(start)[j],
        decreases 16 - i,
    {
        m1[i] = rng.u32();
        i = i + 1;
    }
    assert(m1@ =~= drawn_block(start));
}

/// Sets `state` to the state of the first message after its first block.
pub fn m0_init(state: &mut [u32; 4])
    ensures
        final(state)@ == M0_STATE@,
{
    *state = M0_STATE;
}

/// Sets `state` to the state of the second message after its first block.
pub fn m0_p_init(state: &mut [u32; 4])
    ensures
        final(state)@ == M0_P_STATE@,
{
    *state = M0_P_STATE;
}

/// The block paired with `m1`.
pub fn pair_block(m1: &[u32; 16]) -> (m1_p: [u32; 16])
    ensures
        m1_p@ == paired_block(m1@),
{
    let mut m1_p = *m1;
    m1_p[4] = m1_p[4].wrapping_add(0x80);
    m1_p[11] = m1_p[11].wrapping_sub(0x20);
    m1_p[14] = m1_p[14].wrapping_add(0x80);
    assert(m1_p@ =~= paired_block(m1@));
    m1_p
}

/// Whether two states are the same in all four words.
pub fn same_state(left: &[u32; 4], right: &[u32; 4]) -> (same: bool)
    ensures
        same == (left@ == right@),
{
    let same = left[0] == right[0] && left[1] == right[1] && left[2] == right[2] && left[3]
        == right[3];
    assert(same ==> left@ =~= right@);
    same
}

/// One attempt of the search on the drawn block `random`: the differential
/// transform after the first block of the first message, the paired block,
/// the ordinary transform of that one after the first block of the second
/// message, and the comparison of the two states reached.
pub fn attempt(random: &[u32; 16]) -> (found: Option<([u32; 16], [u32; 16])>)
    ensures
        match found {
            Some((m1, m1_p)) => attempted(random@) == Some((m1@, m1_p@)),
            None => attempted(random@) is None,
        },
{
    let mut state1: [u32; 4] = [0u32; 4];
    let mut state2: [u32; 4] = [0u32; 4];
    m0_init(&mut state1);
    m0_p_init(&mut state2);
    let mut m1 = *random;
    transform_attack(&mut state1, &mut m1);
    let m1_p = pair_block(&m1);
    transform(&mut state2, &m1_p);
    if same_state(&state1, &state2) {
        Some((m1, m1_p))
    } else {
        None
    }
}

/// A pair that a search finds collides, and its second block is the block
/// paired with the first: it differs from it in words 4, 11 and 14 alone, by
/// 0x80 more, 0x20 less and 0x80 more.
pub proof fn lemma_found_pair(state: u64, attempts: nat)
    ensures
        searched(state, attempts) matches Searched::Found { m1, m1_p } ==> collides(m1, m1_p)
            && m1_p == paired_block(m1),
    decreases attempts,
{
    if attempts > 0 && attempted(drawn_block(state)) is None {
        lemma_found_pair(drawn_state(state, 16), (attempts - 1) as nat);
    }
}

/// A colliding pair makes two messages with one digest. Let the 64-byte
/// blocks `m0` and `m0_p` take the initial state to the two states that the
/// search starts from, and let `m1` and `m1_p` collide. Then `m0` followed by
/// the bytes of `m1` and `m0_p` followed by the bytes of `m1_p` have the
/// same digest.
pub proof fn lemma_colliding_pair_verifies(
    m0: Seq<u8>,
    m0_p: Seq<u8>,
    m1: Seq<u32>,
    m1_p: Seq<u32>,
)
    requires
        m0.len() == 64,
        m0_p.len() == 64,
        m1.len() == 16,
        m1_p.len() == 16,
        compress(INITIAL_STATE@, block_words(m0)) == M0_STATE@,
        compress(INITIAL_STATE@, block_words(m0_p)) == M0_P_STATE@,
        collides(m1, m1_p),
    ensures
        same_digest(m0, words_bytes(m1), m0_p, words_bytes(m1_p)),
{
    lemma_words_bytes(m1);
    lemma_words_bytes(m1_p);
    lemma_block_of_words_bytes(m1);
    lemma_block_of_words_bytes(m1_p);
    lemma_state_collision_is_digest_collision(m0, words_bytes(m1), m0_p, words_bytes(m1_p));
}

/// A search that has run out goes on, from the state it ended in, as one
/// longer search would have gone on.
pub proof fn lemma_search_resumes(state: u64, first: nat, then: nat)
    ensures
        searched(state, first + then) == match searched(state, first) {
            Searched::Found { m1, m1_p } => Searched::Found { m1, m1_p },
            Searched::Exhausted { state: reached } => searched(reached, then),
        },
    decreases first,
{
    if first > 0 {
        let found = attempted(drawn_block(state));
        if found is None {
            let next = drawn_state(state, 16);
            lemma_search_resumes(next, (first - 1) as nat, then);
            assert((first + then - 1) as nat == (first - 1) as nat + then);
            assert(searched(state, first + then) == searched(next, (first + then - 1) as nat));
            assert(searched(state, first) == searched(next, (first - 1) as nat));
        }
    }
}

/// Searches for a colliding pair with a generator seeded with `seed`, for at
/// most `max_attempts` attempts.
pub fn find_m1_m1_p(seed: u64, max_attempts: u64) -> (outcome: SearchOutcome)
    ensures
        outcome@ == searched(seed, max_attempts as nat),
        outcome matches SearchOutcome::Found { m1, m1_p } ==> collides(m1@, m1_p@) && m1_p@
            == paired_block(m1@),
{
    let mut rng = SeededRng::with_seed(seed);
    let mut m1: [u32; 16] = [0u32; 16];
    let mut left: u64 = max_attempts;
    proof {
        lemma_found_pair(seed, max_attempts as nat);
    }
    while left > 0
        invariant
            searched(seed, max_attempts as nat) == searched(rng@, left as nat),
            searched(seed, max_attempts as nat) matches Searched::Found { m1, m1_p } ==> collides(
                m1,
                m1_p,
            ) && m1_p == paired_block(m1),
        decreases left,
    {
        rand_m1(&mut m1, &mut rng);
        match attempt(&m1) {
            Some((m1, m1_p)) => {
                return SearchOutcome::Found { m1, m1_p };
            },
            None => {},
        }
        left = left - 1;
    }
    SearchOutcome::Exhausted { state: rng.get_seed() }
}

/// The seeds of `workers` searches: each worker gets its index, so no two
/// get the same.
pub fn worker_seeds(workers: usize) -> (seeds: Vec<u64>)
    ensures
        seeds@.len() == workers,
        forall|i: int| 0 <= i < workers ==> seeds@[i] == i,
        forall|i: int, j: int| 0 <= i < j < workers ==> seeds@[i] != seeds@[j],
{
    let mut seeds: Vec<u64> = Vec::new();
    let mut i: usize = 0;
    while i < workers
        invariant
            i <= workers,
            seeds@.len() == i,
            forall|j: int| 0 <= j < i ==> seeds@[j] == j,
        decreases workers - i,
    {
        seeds.push(i as u64);
        i = i + 1;
    }
    seeds
}

/// The seeds of the searches to run side by side: one for each worker that
/// the machine offers, which is at least one, each seed the index of its
/// worker, so that no two are the same.
pub fn search_plan() -> (seeds: Vec<u64>)
    ensures
        seeds@.len() >= 1,
        forall|i: int| 0 <= i < seeds@.len() ==> seeds@[i] == i,
        forall|i: int, j: int| 0 <= i < j < seeds@.len() ==> seeds@[i] != seeds@[j],
{
    worker_seeds(available_workers())
}

} // verus!
