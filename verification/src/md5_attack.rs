use crate::md5::{
    advance, compress, lemma_regs_through_split, regs_of, regs_through, run_steps, step_output,
    Regs, ROUND_CONSTANTS, SHIFTS,
};
use crate::word::{lemma_step_unstep, mix, mix_words, step, unstep, unstep_word};
use vstd::prelude::*;

verus! {

/// The bits that a step of the first round must show in the register it
/// writes: those in `clear` are 0, those in `set` are 1, and those in `carry`
/// repeat the register written one step earlier.
#[derive(Clone, Copy, Debug)]
pub struct Correction {
    pub clear: u32,
    pub set: u32,
    pub carry: u32,
}

/// For each of the 16 steps of the first round, the bits that must be 0.
pub const CLEAR_MASKS: [u32; 16] = [
    0x0a000820, 0x02208026, 0x40201080, 0x443b19ee, 0xb41011af, 0x9a1113a9, 0x083201c0, 0x1b810001,
    0x03828202, 0x00041003, 0x00021000, 0x0007e000, 0xc0000080, 0xbf040000, 0x82008008, 0x80000000,
];

/// For each of the 16 steps of the first round, the bits that must be 1.
pub const SET_MASKS: [u32; 16] = [
    0x84200000, 0x8c000800, 0xbe1f0966, 0xba040010, 0x482f0e50, 0x04220c56, 0x96011e01, 0x843283c0,
    0x9c0101c1, 0x878383c0, 0x800583c3, 0x80081080, 0x3f0fe008, 0x400be088, 0x7d000000, 0x20000000,
];

/// For each of the 16 steps of the first round, the bits that must repeat the
/// register written by the step before.
pub const CARRY_MASKS: [u32; 16] = [
    0x00000000, 0x701f10c0, 0x00000018, 0x00000601, 0x00000000, 0x00000000, 0x01808000, 0x00000002,
    0x00001000, 0x00000000, 0x00086000, 0x7f000000, 0x00000000, 0x00000000, 0x00000000, 0x00000000,
];

/// The correction of step `i` of the first round.
pub open spec fn correction_at(i: int) -> Correction {
    Correction { clear: CLEAR_MASKS@[i], set: SET_MASKS@[i], carry: CARRY_MASKS@[i] }
}

/// `value` with the correction `c` applied: cleared bits first, then set
/// bits, then the bits taken over from `previous`.
pub open spec fn corrected(value: u32, previous: u32, c: Correction) -> u32 {
    (((value & !c.clear) | c.set) & !c.carry) | (previous & c.carry)
}

/// Whether `value` shows the bits that `c` asks for.
pub open spec fn meets(value: u32, previous: u32, c: Correction) -> bool {
    &&& value & c.clear == 0
    &&& value & c.set == c.set
    &&& value & c.carry == previous & c.carry
}

/// Whether no bit is in two of the three masks.
pub open spec fn apart(clear: u32, set: u32, carry: u32) -> bool {
    &&& clear & set == 0
    &&& clear & carry == 0
    &&& set & carry == 0
}

/// Whether no bit is claimed by two masks of `c`.
pub open spec fn disjoint(c: Correction) -> bool {
    apart(c.clear, c.set, c.carry)
}

/// `value` with the correction `c` applied.
pub fn correct(value: u32, previous: u32, c: Correction) -> (r: u32)
    ensures
        r == corrected(value, previous, c),
{
    (((value & !c.clear) | c.set) & !c.carry) | (previous & c.carry)
}

/// The correction of step `i` of the first round.
pub fn correction(i: usize) -> (c: Correction)
    requires
        i < 16,
    ensures
        c == correction_at(i as int),
{
    Correction { clear: CLEAR_MASKS[i], set: SET_MASKS[i], carry: CARRY_MASKS[i] }
}

/// The value that corrected step `i` writes: the ordinary step output with
/// the step's correction applied, the carried bits taken from `r.b`, the
/// register written one step earlier.
pub open spec fn attack_output(r: Regs, i: int, x: u32) -> u32 {
    corrected(step_output(r, i, x), r.b, correction_at(i))
}

/// The message word that makes the ordinary step `i` write `out`.
pub open spec fn word_for(r: Regs, i: int, out: u32) -> u32 {
    unstep_word(out, r.a, mix(0, r.b, r.c, r.d), ROUND_CONSTANTS@[i], SHIFTS@[i], r.b)
}

/// The registers after the first `n` corrected steps on `block`.
pub open spec fn attack_regs(start: Regs, block: Seq<u32>, n: int) -> Regs
    decreases n,
{
    if n <= 0 {
        start
    } else {
        let r = attack_regs(start, block, n - 1);
        advance(r, attack_output(r, n - 1, block[n - 1]))
    }
}

/// Word `i` of the corrected block: the word for which the ordinary step `i`
/// writes what the corrected step wrote.
pub open spec fn attack_word(start: Regs, block: Seq<u32>, i: int) -> u32 {
    let r = attack_regs(start, block, i);
    word_for(r, i, attack_output(r, i, block[i]))
}

/// The block that the differential transform leaves behind.
pub open spec fn attack_block(state: Seq<u32>, block: Seq<u32>) -> Seq<u32> {
    Seq::new(16, |i: int| attack_word(regs_of(state), block, i))
}

/// Applying a correction whose masks share no bit yields a value that shows
/// the bits it asks for.
pub proof fn lemma_corrected_meets(value: u32, previous: u32, c: Correction)
    requires
        disjoint(c),
    ensures
        meets(corrected(value, previous, c), previous, c),
{
    let clear = c.clear;
    let set = c.set;
    let carry = c.carry;
    assert({
        let v = (((value & !clear) | set) & !carry) | (previous & carry);
        &&& v & clear == 0
        &&& v & set == set
        &&& v & carry == previous & carry
    }) by (bit_vector)
        requires
            apart(clear, set, carry),
    ;
}

/// A value that already shows the bits of a correction is left as it is.
pub proof fn lemma_corrected_fixed_point(value: u32, previous: u32, c: Correction)
    requires
        meets(value, previous, c),
    ensures
        corrected(value, previous, c) == value,
{
    let clear = c.clear;
    let set = c.set;
    let carry = c.carry;
    assert((((value & !clear) | set) & !carry) | (previous & carry) == value) by (bit_vector)
        requires
            value & clear == 0,
            value & set == set,
            value & carry == previous & carry,
    ;
}

/// No two masks of a step's correction share a bit.
pub proof fn lemma_corrections_disjoint(i: int)
    requires
        0 <= i < 16,
    ensures
        disjoint(correction_at(i)),
{
    assert({
        &&& apart(0x0a000820, 0x84200000, 0x00000000)
        &&& apart(0x02208026, 0x8c000800, 0x701f10c0)
        &&& apart(0x40201080, 0xbe1f0966, 0x00000018)
        &&& apart(0x443b19ee, 0xba040010, 0x00000601)
        &&& apart(0xb41011af, 0x482f0e50, 0x00000000)
        &&& apart(0x9a1113a9, 0x04220c56, 0x00000000)
        &&& apart(0x083201c0, 0x96011e01, 0x01808000)
        &&& apart(0x1b810001, 0x843283c0, 0x00000002)
        &&& apart(0x03828202, 0x9c0101c1, 0x00001000)
        &&& apart(0x00041003, 0x878383c0, 0x00000000)
        &&& apart(0x00021000, 0x800583c3, 0x00086000)
        &&& apart(0x0007e000, 0x80081080, 0x7f000000)
        &&& apart(0xc0000080, 0x3f0fe008, 0x00000000)
        &&& apart(0xbf040000, 0x400be088, 0x00000000)
        &&& apart(0x82008008, 0x7d000000, 0x00000000)
        &&& apart(0x80000000, 0x20000000, 0x00000000)
    }) by (bit_vector);
}

/// The ordinary first round, run on the corrected block, passes through the
/// registers that the corrected steps wrote.
pub proof fn lemma_round_one_on_corrected_block(state: Seq<u32>, block: Seq<u32>, n: int)
    requires
        0 <= n <= 16,
    ensures
        regs_through(regs_of(state), attack_block(state, block), 0, n) == attack_regs(
            regs_of(state),
            block,
            n,
        ),
    decreases n,
{
    if n > 0 {
        let i = n - 1;
        lemma_round_one_on_corrected_block(state, block, i);
        let r = attack_regs(regs_of(state), block, i);
        let out = attack_output(r, i, block[i]);
        assert(attack_block(state, block)[i] == word_for(r, i, out));
        assert(i / 16 == 0);
        lemma_step_unstep(
            out,
            block[i],
            r.a,
            mix(0, r.b, r.c, r.d),
            ROUND_CONSTANTS@[i],
            SHIFTS@[i],
            r.b,
        );
    }
}

/// Round trip of the differential transform. Let `fixed` be the block that it
/// leaves behind for `state` and `block`. When the ordinary first round is
/// run from `state` on `fixed`, the value that each step `i` writes is the
/// value that the corrected step wrote, and it shows the bits that the step's
/// correction asks for: the cleared bits are 0, the set bits are 1, and the
/// carried bits repeat the register written one step earlier.
pub proof fn lemma_attack_round_trip(state: Seq<u32>, block: Seq<u32>, i: int)
    requires
        0 <= i < 16,
    ensures
        ({
            let fixed = attack_block(state, block);
            let before = regs_through(regs_of(state), fixed, 0, i);
            let out = step_output(before, i, fixed[i]);
            &&& before == attack_regs(regs_of(state), block, i)
            &&& out == attack_output(before, i, block[i])
            &&& meets(out, before.b, correction_at(i))
        }),
{
    lemma_round_one_on_corrected_block(state, block, i);
    lemma_round_one_on_corrected_block(state, block, i + 1);
    let fixed = attack_block(state, block);
    let before = regs_through(regs_of(state), fixed, 0, i);
    assert(regs_through(regs_of(state), fixed, 0, i + 1) == advance(
        before,
        step_output(before, i, fixed[i]),
    ));
    lemma_corrections_disjoint(i);
    lemma_corrected_meets(step_output(before, i, block[i]), before.b, correction_at(i));
}

/// On a block that the differential transform has left behind, corrected
/// step `i` writes what it wrote before, and so do the steps before it.
proof fn lemma_corrected_steps_repeat(state: Seq<u32>, block: Seq<u32>, i: int)
    requires
        0 <= i < 16,
    ensures
        attack_regs(regs_of(state), attack_block(state, block), i) == attack_regs(
            regs_of(state),
            block,
            i,
        ),
        attack_output(
            attack_regs(regs_of(state), block, i),
            i,
            attack_block(state, block)[i],
        ) == attack_output(attack_regs(regs_of(state), block, i), i, block[i]),
    decreases i,
{
    if i > 0 {
        lemma_corrected_steps_repeat(state, block, i - 1);
    }
    let r = attack_regs(regs_of(state), block, i);
    let out = attack_output(r, i, block[i]);
    assert(attack_block(state, block)[i] == word_for(r, i, out));
    assert(i / 16 == 0);
    lemma_step_unstep(out, block[i], r.a, mix(0, r.b, r.c, r.d), ROUND_CONSTANTS@[i], SHIFTS@[i], r.b);
    lemma_corrections_disjoint(i);
    lemma_corrected_meets(step_output(r, i, block[i]), r.b, correction_at(i));
    lemma_corrected_fixed_point(out, r.b, correction_at(i));
}

/// The differential transform leaves a block that it has corrected as it
/// is.
pub proof fn lemma_attack_block_idempotent(state: Seq<u32>, block: Seq<u32>)
    ensures
        attack_block(state, attack_block(state, block)) == attack_block(state, block),
{
    let fixed = attack_block(state, block);
    assert forall|i: int| 0 <= i < 16 implies attack_block(state, fixed)[i] == fixed[i] by {
        lemma_corrected_steps_repeat(state, block, i);
    }
    assert(attack_block(state, fixed) =~= fixed);
}

/// The differential transform. It runs the first round with each step's
/// output corrected, replaces each message word by the one for which the
/// ordinary step writes the corrected output, runs the other three rounds on
/// the words so replaced, and adds the result to the state. What it leaves
/// in `state` is therefore the ordinary compression of the block it leaves
/// in `input`.
pub fn transform_attack(state: &mut [u32; 4], input: &mut [u32; 16])
    ensures
        final(input)@ == attack_block(old(state)@, old(input)@),
        final(state)@ == compress(old(state)@, final(input)@),
{
    let ghost state0 = state@;
    let ghost block0 = input@;
    let start = Regs { a: state[0], b: state[1], c: state[2], d: state[3] };
    let mut r = start;
    let mut i: usize = 0;
    while i < 16
        invariant
            i <= 16,
            start == regs_of(state0),
            r == attack_regs(start, block0, i as int),
            forall|j: int| 0 <= j < i ==> input@[j] == attack_word(start, block0, j),
            forall|j: int| i <= j < 16 ==> input@[j] == block0[j],
        decreases 16 - i,
    {
        let f = mix_words(0, r.b, r.c, r.d);
        let raw = step(r.a, f, input[i], ROUND_CONSTANTS[i], SHIFTS[i], r.b);
        let out = correct(raw, r.b, correction(i));
        input[i] = unstep(out, r.a, f, ROUND_CONSTANTS[i], SHIFTS[i], r.b);
        r = Regs { a: r.d, b: out, c: r.b, d: r.c };
        i = i + 1;
    }
    proof {
        assert(input@ =~= attack_block(state0, block0));
        lemma_round_one_on_corrected_block(state0, block0, 16);
        lemma_regs_through_split(start, input@, 0, 16, 64);
    }
    let r = run_steps(r, input, 16, 64);
    state[0] = state[0].wrapping_add(r.a);
    state[1] = state[1].wrapping_add(r.b);
    state[2] = state[2].wrapping_add(r.c);
    state[3] = state[3].wrapping_add(r.d);
}

} // verus!
