use vstd::prelude::*;

verus! {

/// Left rotation of a 32-bit word by `s` positions. Meaningful for `0 < s < 32`.
pub open spec fn rotl(x: u32, s: u32) -> u32 {
    (x << s) | (x >> ((32 - s) as u32))
}

/// Right rotation of a 32-bit word by `s` positions. Meaningful for `0 < s < 32`.
pub open spec fn rotr(x: u32, s: u32) -> u32 {
    (x >> s) | (x << ((32 - s) as u32))
}

/// The bit-mixing function of a round: round 0 selects by `x` between `y` and `z`,
/// round 1 selects by `z` between `x` and `y`, round 2 is the parity of the three,
/// round 3 is `y ^ (x | !z)`.
pub open spec fn mix(round: int, x: u32, y: u32, z: u32) -> u32 {
    if round == 0 {
        (x & y) | (!x & z)
    } else if round == 1 {
        (x & z) | (y & !z)
    } else if round == 2 {
        x ^ y ^ z
    } else {
        y ^ (x | !z)
    }
}

/// One step of the compression function: the new register value obtained from
/// the register `a` being replaced, the mixed value `f` of the other three,
/// the message word `x`, the additive constant `k`, the rotation `s`, and the
/// most recently written register `b`. All additions are modulo 2^32.
pub open spec fn step_word(a: u32, f: u32, x: u32, k: u32, s: u32, b: u32) -> u32 {
    rotl(a.wrapping_add(f).wrapping_add(x).wrapping_add(k), s).wrapping_add(b)
}

/// The message word for which a step yields `target`: the step function
/// solved for `x`.
pub open spec fn unstep_word(target: u32, a: u32, f: u32, k: u32, s: u32, b: u32) -> u32 {
    rotr(target.wrapping_sub(b), s).wrapping_sub(f.wrapping_add(k).wrapping_add(a))
}

/// `x` rotated left by `s` positions.
pub fn rotate_left(x: u32, s: u32) -> (r: u32)
    requires
        0 < s < 32,
    ensures
        r == rotl(x, s),
{
    (x << s) | (x >> (32 - s))
}

/// `x` rotated right by `s` positions.
pub fn rotate_right(x: u32, s: u32) -> (r: u32)
    requires
        0 < s < 32,
    ensures
        r == rotr(x, s),
{
    (x >> s) | (x << (32 - s))
}

/// The mixed value of three registers in the given round.
pub fn mix_words(round: usize, x: u32, y: u32, z: u32) -> (r: u32)
    requires
        round < 4,
    ensures
        r == mix(round as int, x, y, z),
{
    if round == 0 {
        (x & y) | (!x & z)
    } else if round == 1 {
        (x & z) | (y & !z)
    } else if round == 2 {
        x ^ y ^ z
    } else {
        y ^ (x | !z)
    }
}

/// The value that one step writes.
pub fn step(a: u32, f: u32, x: u32, k: u32, s: u32, b: u32) -> (r: u32)
    requires
        0 < s < 32,
    ensures
        r == step_word(a, f, x, k, s, b),
{
    rotate_left(a.wrapping_add(f).wrapping_add(x).wrapping_add(k), s).wrapping_add(b)
}

/// The message word for which a step writes `target`.
pub fn unstep(target: u32, a: u32, f: u32, k: u32, s: u32, b: u32) -> (x: u32)
    requires
        0 < s < 32,
    ensures
        x == unstep_word(target, a, f, k, s, b),
{
    rotate_right(target.wrapping_sub(b), s).wrapping_sub(f.wrapping_add(k).wrapping_add(a))
}

/// Rotating right and then left by the same amount, or left and then right,
/// gives the word back.
pub proof fn lemma_rotations_cancel(x: u32, s: u32)
    requires
        0 < s < 32,
    ensures
        rotl(rotr(x, s), s) == x,
        rotr(rotl(x, s), s) == x,
{
    assert(rotl(rotr(x, s), s) == x) by (bit_vector)
        requires
            0 < s < 32,
    ;
    assert(rotr(rotl(x, s), s) == x) by (bit_vector)
        requires
            0 < s < 32,
    ;
}

/// A step run on the word that `unstep_word` derives for `target` yields
/// `target`, and `unstep_word` recovers the word that a step was run on.
pub proof fn lemma_step_unstep(target: u32, x: u32, a: u32, f: u32, k: u32, s: u32, b: u32)
    requires
        0 < s < 32,
    ensures
        step_word(a, f, unstep_word(target, a, f, k, s, b), k, s, b) == target,
        unstep_word(step_word(a, f, x, k, s, b), a, f, k, s, b) == x,
{
    let y = target.wrapping_sub(b);
    lemma_rotations_cancel(y, s);
    let z = a.wrapping_add(f).wrapping_add(x).wrapping_add(k);
    lemma_rotations_cancel(z, s);
}

/// The four bytes of a word, least significant first.
pub open spec fn le_bytes(w: u32) -> Seq<u8> {
    seq![
        (w % 256) as u8,
        ((w / 256) % 256) as u8,
        ((w / 65536) % 256) as u8,
        (w / 16777216) as u8,
    ]
}

/// The word whose bytes, least significant first, are `b0`, `b1`, `b2`, `b3`.
pub open spec fn le_word(b0: u8, b1: u8, b2: u8, b3: u8) -> u32 {
    (b0 + 256 * b1 + 65536 * b2 + 16777216 * b3) as u32
}

/// The four bytes of `w`, least significant first.
pub fn to_le_bytes(w: u32) -> (b: [u8; 4])
    ensures
        b@ == le_bytes(w),
{
    let b: [u8; 4] = [
        (w % 256) as u8,
        ((w / 256) % 256) as u8,
        ((w / 65536) % 256) as u8,
        (w / 16777216) as u8,
    ];
    assert(b@ =~= le_bytes(w));
    b
}

/// The word of four bytes, least significant first.
pub fn from_le_bytes(b0: u8, b1: u8, b2: u8, b3: u8) -> (w: u32)
    ensures
        w == le_word(b0, b1, b2, b3),
{
    (b0 as u32) + 256 * (b1 as u32) + 65536 * (b2 as u32) + 16777216 * (b3 as u32)
}

/// Splitting a word into bytes and joining them again gives the word back,
/// and the other way round.
pub proof fn lemma_le_round_trip(w: u32, b0: u8, b1: u8, b2: u8, b3: u8)
    ensures
        le_word(le_bytes(w)[0], le_bytes(w)[1], le_bytes(w)[2], le_bytes(w)[3]) == w,
        le_bytes(le_word(b0, b1, b2, b3)) == seq![b0, b1, b2, b3],
{
    assert((w % 256) + 256 * ((w / 256) % 256) + 65536 * ((w / 65536) % 256) + 16777216 * (w
        / 16777216) == w) by (bit_vector);
    let x = le_word(b0, b1, b2, b3);
    assert(x == b0 + 256 * b1 + 65536 * b2 + 16777216 * b3);
    assert(x % 256 == b0 && (x / 256) % 256 == b1 && (x / 65536) % 256 == b2 && x / 16777216
        == b3) by (bit_vector)
        requires
            x == b0 + 256 * b1 + 65536 * b2 + 16777216 * b3,
    ;
    assert(le_bytes(x) =~= seq![b0, b1, b2, b3]);
}

} // verus!
