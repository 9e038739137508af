use crate::word::{from_le_bytes, le_bytes, le_word, mix, mix_words, step, step_word, to_le_bytes};
use vstd::prelude::*;
use vstd::string::{StrSliceExecFns, StringExecFns};

verus! {

/// The additive constant of each of the 64 steps.
pub const ROUND_CONSTANTS: [u32; 64] = [
    0xd76aa478, 0xe8c7b756, 0x242070db, 0xc1bdceee, 0xf57c0faf, 0x4787c62a, 0xa8304613, 0xfd469501,
    0x698098d8, 0x8b44f7af, 0xffff5bb1, 0x895cd7be, 0x6b901122, 0xfd987193, 0xa679438e, 0x49b40821,
    0xf61e2562, 0xc040b340, 0x265e5a51, 0xe9b6c7aa, 0xd62f105d, 0x02441453, 0xd8a1e681, 0xe7d3fbc8,
    0x21e1cde6, 0xc33707d6, 0xf4d50d87, 0x455a14ed, 0xa9e3e905, 0xfcefa3f8, 0x676f02d9, 0x8d2a4c8a,
    0xfffa3942, 0x8771f681, 0x6d9d6122, 0xfde5380c, 0xa4beea44, 0x4bdecfa9, 0xf6bb4b60, 0xbebfbc70,
    0x289b7ec6, 0xeaa127fa, 0xd4ef3085, 0x04881d05, 0xd9d4d039, 0xe6db99e5, 0x1fa27cf8, 0xc4ac5665,
    0xf4292244, 0x432aff97, 0xab9423a7, 0xfc93a039, 0x655b59c3, 0x8f0ccc92, 0xffeff47d, 0x85845dd1,
    0x6fa87e4f, 0xfe2ce6e0, 0xa3014314, 0x4e0811a1, 0xf7537e82, 0xbd3af235, 0x2ad7d2bb, 0xeb86d391,
];

/// The left-rotation amount of each of the 64 steps.
pub const SHIFTS: [u32; 64] = [
    7, 12, 17, 22, 7, 12, 17, 22, 7, 12, 17, 22, 7, 12, 17, 22,
    5, 9, 14, 20, 5, 9, 14, 20, 5, 9, 14, 20, 5, 9, 14, 20,
    4, 11, 16, 23, 4, 11, 16, 23, 4, 11, 16, 23, 4, 11, 16, 23,
    6, 10, 15, 21, 6, 10, 15, 21, 6, 10, 15, 21, 6, 10, 15, 21,
];

/// The state that a digest computation starts from.
pub const INITIAL_STATE: [u32; 4] = [0x67452301, 0xefcdab89, 0x98badcfe, 0x10325476];

/// The four working registers of the compression function.
#[derive(Clone, Copy, Debug)]
pub struct Regs {
    pub a: u32,
    pub b: u32,
    pub c: u32,
    pub d: u32,
}

/// The registers that a compression starts from: the four state words.
pub open spec fn regs_of(state: Seq<u32>) -> Regs {
    Regs { a: state[0], b: state[1], c: state[2], d: state[3] }
}

/// Which message word step `i` reads: round 0 takes the words in order, the
/// later rounds walk them with strides 5, 3 and 7.
pub open spec fn word_index(i: int) -> int {
    if i < 16 {
        i
    } else if i < 32 {
        (5 * i + 1) % 16
    } else if i < 48 {
        (3 * i + 5) % 16
    } else {
        (7 * i) % 16
    }
}

/// The value that step `i` writes when it reads message word `x`.
pub open spec fn step_output(r: Regs, i: int, x: u32) -> u32 {
    step_word(r.a, mix(i / 16, r.b, r.c, r.d), x, ROUND_CONSTANTS@[i], SHIFTS@[i], r.b)
}

/// The registers after a step that wrote `out`: the written value becomes `b`
/// and the other three move up one place.
pub open spec fn advance(r: Regs, out: u32) -> Regs {
    Regs { a: r.d, b: out, c: r.b, d: r.c }
}

/// The registers after steps `from`, `from + 1`, ..., `to - 1` of the
/// compression function, started in `start`.
pub open spec fn regs_through(start: Regs, block: Seq<u32>, from: int, to: int) -> Regs
    decreases to - from,
{
    if to <= from {
        start
    } else {
        let r = regs_through(start, block, from, to - 1);
        advance(r, step_output(r, to - 1, block[word_index(to - 1)]))
    }
}

/// The compression function: the state after absorbing one 16-word block.
pub open spec fn compress(state: Seq<u32>, block: Seq<u32>) -> Seq<u32> {
    let r = regs_through(regs_of(state), block, 0, 64);
    seq![
        state[0].wrapping_add(r.a),
        state[1].wrapping_add(r.b),
        state[2].wrapping_add(r.c),
        state[3].wrapping_add(r.d),
    ]
}

/// Running the steps up to `mid` and then the steps from `mid` on is running
/// them all.
pub proof fn lemma_regs_through_split(start: Regs, block: Seq<u32>, from: int, mid: int, to: int)
    requires
        from <= mid <= to,
    ensures
        regs_through(start, block, from, to) == regs_through(
            regs_through(start, block, from, mid),
            block,
            mid,
            to,
        ),
    decreases to - mid,
{
    if mid < to {
        lemma_regs_through_split(start, block, from, mid, to - 1);
    }
}

/// The index of the message word that step `i` reads.
pub fn message_index(i: usize) -> (j: usize)
    requires
        i < 64,
    ensures
        j == word_index(i as int),
        j < 16,
{
    if i < 16 {
        i
    } else if i < 32 {
        (5 * i + 1) % 16
    } else if i < 48 {
        (3 * i + 5) % 16
    } else {
        (7 * i) % 16
    }
}

/// Runs steps `from..to` of the compression function on `start`.
pub fn run_steps(start: Regs, block: &[u32; 16], from: usize, to: usize) -> (r: Regs)
    requires
        from <= to <= 64,
    ensures
        r == regs_through(start, block@, from as int, to as int),
{
    let mut r = start;
    let mut i: usize = from;
    while i < to
        invariant
            from <= i <= to <= 64,
            r == regs_through(start, block@, from as int, i as int),
        decreases to - i,
    {
        let f = mix_words(i / 16, r.b, r.c, r.d);
        let out = step(r.a, f, block[message_index(i)], ROUND_CONSTANTS[i], SHIFTS[i], r.b);
        r = Regs { a: r.d, b: out, c: r.b, d: r.c };
        i = i + 1;
    }
    r
}

/// Absorbs one block into the state.
pub fn transform(state: &mut [u32; 4], input: &[u32; 16])
    ensures
        final(state)@ == compress(old(state)@, input@),
{
    let start = Regs { a: state[0], b: state[1], c: state[2], d: state[3] };
    let r = run_steps(start, input, 0, 64);
    state[0] = state[0].wrapping_add(r.a);
    state[1] = state[1].wrapping_add(r.b);
    state[2] = state[2].wrapping_add(r.c);
    state[3] = state[3].wrapping_add(r.d);
}

/// The 16 bytes of a state: its four words in order, each least significant
/// byte first.
pub open spec fn digest_bytes(state: Seq<u32>) -> Seq<u8> {
    le_bytes(state[0]) + le_bytes(state[1]) + le_bytes(state[2]) + le_bytes(state[3])
}

/// The 16 words of a 64-byte block: each group of four bytes read least
/// significant byte first.
pub open spec fn block_words(block: Seq<u8>) -> Seq<u32> {
    Seq::new(
        16,
        |i: int| le_word(block[4 * i], block[4 * i + 1], block[4 * i + 2], block[4 * i + 3]),
    )
}

/// The state after absorbing the first `blocks` 64-byte blocks of `bytes`.
pub open spec fn absorb(state: Seq<u32>, bytes: Seq<u8>, blocks: int) -> Seq<u32>
    decreases blocks,
{
    if blocks <= 0 {
        state
    } else {
        compress(
            absorb(state, bytes, blocks - 1),
            block_words(bytes.subrange(64 * (blocks - 1), 64 * blocks)),
        )
    }
}

/// The length in bits of a message of `len` bytes, modulo 2^64.
pub open spec fn bit_length(len: nat) -> int {
    (8 * len as int) % 0x1_0000_0000_0000_0000
}

/// The eight bytes that close the padding: the bit length, least significant
/// byte first.
pub open spec fn length_bytes(len: nat) -> Seq<u8> {
    le_bytes((bit_length(len) % 0x1_0000_0000) as u32) + le_bytes(
        (bit_length(len) / 0x1_0000_0000) as u32,
    )
}

/// How many zero bytes the padding of a message of `len` bytes holds.
pub open spec fn zero_fill(len: nat) -> nat {
    ((119 - len % 64) % 64) as nat
}

/// The padded message: the message, one byte 0x80, zero bytes up to 56 modulo
/// 64, and the bit length.
pub open spec fn padded(msg: Seq<u8>) -> Seq<u8> {
    msg + seq![0x80u8] + Seq::new(zero_fill(msg.len()), |i: int| 0u8) + length_bytes(msg.len())
}

/// The state after absorbing the whole padded message.
pub open spec fn md5_state(msg: Seq<u8>) -> Seq<u32> {
    absorb(INITIAL_STATE@, padded(msg), padded(msg).len() as int / 64)
}

/// The digest of a message.
pub open spec fn md5(msg: Seq<u8>) -> Seq<u8> {
    digest_bytes(md5_state(msg))
}

/// The bit length of `len + n` bytes from the bit length of `len` bytes.
proof fn lemma_bit_length_sum(len: nat, n: nat, total: int)
    requires
        0 <= total < 0x1_0000_0000_0000_0000,
        total == bit_length(len) + (8 * n as int) % 0x1_0000_0000_0000_0000 || total
            == bit_length(len) + (8 * n as int) % 0x1_0000_0000_0000_0000
            - 0x1_0000_0000_0000_0000,
    ensures
        total == bit_length(len + n),
{
    let m = 0x1_0000_0000_0000_0000int;
    let sum = bit_length(len) + (8 * n as int) % m;
    vstd::arithmetic::div_mod::lemma_add_mod_noop(8 * len as int, 8 * n as int, m);
    assert(sum % m == bit_length(len + n));
    if total == sum {
        vstd::arithmetic::div_mod::lemma_small_mod(sum as nat, m as nat);
    } else {
        vstd::arithmetic::div_mod::lemma_mod_sub_multiples_vanish(sum, m);
        vstd::arithmetic::div_mod::lemma_small_mod(total as nat, m as nat);
    }
}

/// The low word of the bit length still tells the byte length modulo 64.
proof fn lemma_length_low_word(len: nat)
    ensures
        ((bit_length(len) % 0x1_0000_0000) / 8) % 64 == len % 64,
{
    let bits = bit_length(len);
    let low = bits % 0x1_0000_0000;
    let q = (8 * len as int) / 0x1_0000_0000_0000_0000;
    let t = 0x1_0000_0000 * q + bits / 0x1_0000_0000;
    assert(8 * len as int == 0x1_0000_0000_0000_0000 * q + bits);
    assert(bits == 0x1_0000_0000 * (bits / 0x1_0000_0000) + low);
    assert(low == 8 * (len - 0x2000_0000 * t));
    assert(low / 8 == len - 0x2000_0000 * t);
    let a = -(0x80_0000 * t);
    vstd::arithmetic::div_mod::lemma_mod_multiples_vanish(a, len as int, 64);
    assert(64 * a + len == low / 8);
}

/// The padded message is a whole number of blocks, one or two more than the
/// message holds in full.
pub proof fn lemma_padded_len(msg: Seq<u8>)
    ensures
        padded(msg).len() % 64 == 0,
        msg.len() % 64 < 56 ==> padded(msg).len() == 64 * (msg.len() / 64) + 64,
        msg.len() % 64 >= 56 ==> padded(msg).len() == 64 * (msg.len() / 64) + 128,
{
    let len = msg.len() as int;
    let r = len % 64;
    assert(length_bytes(msg.len()).len() == 8);
    assert(padded(msg).len() == len + 1 + zero_fill(msg.len()) + 8);
    assert(len == 64 * (len / 64) + r);
    if r < 56 {
        assert(zero_fill(msg.len()) == 55 - r);
    } else {
        assert(zero_fill(msg.len()) == 119 - r);
    }
}

/// Absorbing blocks reads only the bytes of those blocks.
pub proof fn lemma_absorb_prefix(state: Seq<u32>, a: Seq<u8>, b: Seq<u8>, blocks: int)
    requires
        0 <= blocks,
        a.len() >= 64 * blocks,
        b.len() >= 64 * blocks,
        a.subrange(0, 64 * blocks) == b.subrange(0, 64 * blocks),
    ensures
        absorb(state, a, blocks) == absorb(state, b, blocks),
    decreases blocks,
{
    if blocks > 0 {
        let m = blocks - 1;
        assert(a.subrange(0, 64 * m) =~= a.subrange(0, 64 * blocks).subrange(0, 64 * m));
        assert(b.subrange(0, 64 * m) =~= b.subrange(0, 64 * blocks).subrange(0, 64 * m));
        lemma_absorb_prefix(state, a, b, m);
        assert(a.subrange(64 * m, 64 * blocks) =~= a.subrange(0, 64 * blocks).subrange(
            64 * m,
            64 * blocks,
        ));
        assert(b.subrange(64 * m, 64 * blocks) =~= b.subrange(0, 64 * blocks).subrange(
            64 * m,
            64 * blocks,
        ));
    }
}

/// What each byte of the padded message is.
proof fn lemma_padded_bytes(msg: Seq<u8>)
    ensures
        forall|i: int| 0 <= i < msg.len() ==> padded(msg)[i] == msg[i],
        padded(msg)[msg.len() as int] == 0x80,
        forall|i: int| msg.len() < i < msg.len() + 1 + zero_fill(msg.len()) ==> padded(msg)[i] == 0,
        forall|i: int|
            0 <= i < 8 ==> padded(msg)[msg.len() + 1 + zero_fill(msg.len()) + i] == length_bytes(
                msg.len(),
            )[i],
{
    assert(length_bytes(msg.len()).len() == 8);
}

/// A message of at most 55 bytes is padded to one block, and its digest is
/// the bytes of the initial state compressed with that block.
pub proof fn lemma_single_block_digest(msg: Seq<u8>)
    requires
        msg.len() <= 55,
    ensures
        padded(msg).len() == 64,
        md5(msg) == digest_bytes(compress(INITIAL_STATE@, block_words(padded(msg)))),
{
    lemma_padded_len(msg);
    let whole = padded(msg);
    assert(whole.subrange(0, 64) =~= whole);
    assert(absorb(INITIAL_STATE@, whole, 1) == compress(
        absorb(INITIAL_STATE@, whole, 0),
        block_words(whole.subrange(0, 64)),
    ));
}

/// The state after a message of two 64-byte blocks is the state after the
/// two blocks compressed with a third block that only the length decides.
pub proof fn lemma_two_block_state(first: Seq<u8>, second: Seq<u8>)
    requires
        first.len() == 64,
        second.len() == 64,
    ensures
        md5_state(first + second) == compress(
            compress(compress(INITIAL_STATE@, block_words(first)), block_words(second)),
            block_words(padded(first + second).subrange(128, 192)),
        ),
        padded(first + second).subrange(128, 192) == padded(Seq::new(128, |i: int| 0u8)).subrange(
            128,
            192,
        ),
{
    let msg = first + second;
    let whole = padded(msg);
    let zeros = Seq::new(128, |i: int| 0u8);
    lemma_padded_len(msg);
    lemma_padded_len(zeros);
    assert(whole.subrange(0, 64) =~= first);
    assert(whole.subrange(64, 128) =~= second);
    assert(absorb(INITIAL_STATE@, whole, 1) == compress(
        absorb(INITIAL_STATE@, whole, 0),
        block_words(whole.subrange(0, 64)),
    ));
    assert(absorb(INITIAL_STATE@, whole, 2) == compress(
        absorb(INITIAL_STATE@, whole, 1),
        block_words(whole.subrange(64, 128)),
    ));
    assert(absorb(INITIAL_STATE@, whole, 3) == compress(
        absorb(INITIAL_STATE@, whole, 2),
        block_words(whole.subrange(128, 192)),
    ));
    lemma_padded_bytes(msg);
    lemma_padded_bytes(zeros);
    assert(whole.subrange(128, 192) =~= padded(zeros).subrange(128, 192)) by {
        assert(zero_fill(128) == 55);
        assert forall|j: int| 128 <= j < 192 implies whole[j] == #[trigger] padded(zeros)[j] by {
            if 184 <= j {
                assert(whole[128 + 1 + 55 + (j - 184)] == length_bytes(128)[j - 184]);
                assert(padded(zeros)[128 + 1 + 55 + (j - 184)] == length_bytes(128)[j - 184]);
            }
        }
    }
}

/// Two messages of two 64-byte blocks each, whose blocks take the initial
/// state to the same state, have the same digest.
pub proof fn lemma_state_collision_is_digest_collision(
    m0: Seq<u8>,
    m1: Seq<u8>,
    m0_p: Seq<u8>,
    m1_p: Seq<u8>,
)
    requires
        m0.len() == 64,
        m1.len() == 64,
        m0_p.len() == 64,
        m1_p.len() == 64,
        compress(compress(INITIAL_STATE@, block_words(m0)), block_words(m1)) == compress(
            compress(INITIAL_STATE@, block_words(m0_p)),
            block_words(m1_p),
        ),
    ensures
        md5(m0 + m1) == md5(m0_p + m1_p),
{
    lemma_two_block_state(m0, m1);
    lemma_two_block_state(m0_p, m1_p);
}

/// A byte added behind whole blocks does not change what absorbing them
/// gives.
proof fn lemma_absorb_push(state: Seq<u32>, seen: Seq<u8>, byte: u8, blocks: int)
    requires
        0 <= blocks,
        64 * blocks <= seen.len(),
    ensures
        absorb(state, seen.push(byte), blocks) == absorb(state, seen, blocks),
{
    assert(seen.push(byte).subrange(0, 64 * blocks) =~= seen.subrange(0, 64 * blocks));
    lemma_absorb_prefix(state, seen.push(byte), seen, blocks);
}

/// The bytes of a state, as `digest_bytes` gives them.
pub fn digest_from(state: &[u32; 4]) -> (digest: Digest)
    ensures
        digest@ == digest_bytes(state@),
{
    let mut bytes: [u8; 16] = [0u8; 16];
    let mut i: usize = 0;
    while i < 4
        invariant
            i <= 4,
            forall|j: int| 0 <= j < 4 * i ==> bytes@[j] == digest_bytes(state@)[j],
        decreases 4 - i,
    {
        let word = to_le_bytes(state[i]);
        bytes[4 * i] = word[0];
        bytes[4 * i + 1] = word[1];
        bytes[4 * i + 2] = word[2];
        bytes[4 * i + 3] = word[3];
        i = i + 1;
    }
    assert(bytes@ =~= digest_bytes(state@));
    Digest(bytes)
}

/// The words of a 64-byte block, as `block_words` gives them.
pub fn words_of_block(block: &[u8; 64]) -> (words: [u32; 16])
    ensures
        words@ == block_words(block@),
{
    let mut words: [u32; 16] = [0u32; 16];
    let mut i: usize = 0;
    while i < 16
        invariant
            i <= 16,
            forall|j: int| 0 <= j < i ==> words@[j] == block_words(block@)[j],
        decreases 16 - i,
    {
        words[i] = from_le_bytes(block[4 * i], block[4 * i + 1], block[4 * i + 2], block[4 * i + 3]);
        i = i + 1;
    }
    assert(words@ =~= block_words(block@));
    words
}

/// A 16-byte digest.
#[derive(Clone, Copy, Debug)]
pub struct Digest(pub [u8; 16]);

impl View for Digest {
    type V = Seq<u8>;

    open spec fn view(&self) -> Seq<u8> {
        self.0@
    }
}

/// The lower-case hexadecimal digit of a value below 16.
pub open spec fn hex_digit(n: int) -> char {
    "0123456789abcdef"@[n]
}

/// The lower-case hexadecimal text of some bytes: two digits for each, the
/// high half first.
pub open spec fn hex_text(bytes: Seq<u8>) -> Seq<char> {
    Seq::new(
        2 * bytes.len(),
        |i: int|
            hex_digit(
                if i % 2 == 0 {
                    bytes[i / 2] as int / 16
                } else {
                    bytes[i / 2] as int % 16
                },
            ),
    )
}

impl Digest {
    /// The digest as 32 lower-case hexadecimal digits.
    pub fn to_hex(&self) -> (text: String)
        ensures
            text@ == hex_text(self@),
    {
        let digits = "0123456789abcdef";
        proof {
            reveal_strlit("0123456789abcdef");
        }
        let mut text = String::new();
        let mut i: usize = 0;
        while i < 16
            invariant
                i <= 16,
                digits@ == "0123456789abcdef"@,
                digits@.len() == 16,
                digits.is_ascii(),
                text@.len() == 2 * i,
                forall|j: int| 0 <= j < 2 * i ==> text@[j] == hex_text(self@)[j],
            decreases 16 - i,
        {
            let byte = self.0[i];
            let high = (byte / 16) as usize;
            let low = (byte % 16) as usize;
            text.append(digits.substring_ascii(high, high + 1));
            text.append(digits.substring_ascii(low, low + 1));
            i = i + 1;
        }
        assert(text@ =~= hex_text(self@));
        text
    }
}

impl PartialEq for Digest {
    /// Whether the two digests hold the same 16 bytes.
    fn eq(&self, other: &Digest) -> (same: bool) {
        let mut i: usize = 0;
        while i < 16
            invariant
                i <= 16,
                forall|j: int| 0 <= j < i ==> self.0@[j] == other.0@[j],
            decreases 16 - i,
        {
            if self.0[i] != other.0[i] {
                return false;
            }
            i = i + 1;
        }
        assert(self.0@ =~= other.0@);
        true
    }
}

impl vstd::std_specs::cmp::PartialEqSpecImpl for Digest {
    open spec fn obeys_eq_spec() -> bool {
        true
    }

    open spec fn eq_spec(&self, other: &Digest) -> bool {
        self@ == other@
    }
}

impl Eq for Digest {

}

/// A digest computation in progress: what has been consumed so far, held as a
/// 64-byte buffer of bytes not yet absorbed, the bit length of the whole as
/// two words (low word first), and the state after the blocks absorbed.
pub struct Context {
    buffer: [u8; 64],
    count: [u32; 2],
    state: [u32; 4],
    message: Ghost<Seq<u8>>,
}

impl View for Context {
    type V = Seq<u8>;

    /// The bytes consumed so far.
    closed spec fn view(&self) -> Seq<u8> {
        self.message@
    }
}

impl Context {
    /// Whether state and buffer hold the bytes `fed`: the state has absorbed
    /// their whole blocks, and the buffer starts with the bytes left over.
    spec fn holds(&self, fed: Seq<u8>) -> bool {
        let full = fed.len() as int / 64;
        &&& self.state@ == absorb(INITIAL_STATE@, fed, full)
        &&& forall|i: int| 0 <= i < fed.len() % 64 ==> self.buffer@[i] == fed[64 * full + i]
    }

    /// Whether the fields hold what the consumed bytes call for.
    pub closed spec fn wf(&self) -> bool {
        &&& self.count@[0] == bit_length(self.message@.len()) % 0x1_0000_0000
        &&& self.count@[1] == bit_length(self.message@.len()) / 0x1_0000_0000
        &&& self.holds(self.message@)
    }

    /// A computation that has consumed nothing.
    pub fn new() -> (context: Context)
        ensures
            context.wf(),
            context@ == Seq::<u8>::empty(),
    {
        Context {
            buffer: [0u8; 64],
            count: [0u32; 2],
            state: INITIAL_STATE,
            message: Ghost(Seq::empty()),
        }
    }

    /// How many consumed bytes wait in the buffer.
    fn pending(&self) -> (k: usize)
        requires
            self.wf(),
        ensures
            k == self@.len() % 64,
    {
        proof {
            lemma_length_low_word(self@.len());
        }
        ((self.count[0] / 8) % 64) as usize
    }

    /// Adds `n` bytes to the bit length.
    fn lengthen(&mut self, n: usize)
        requires
            old(self).wf(),
        ensures
            final(self).count@[0] == bit_length((old(self)@.len() + n) as nat) % 0x1_0000_0000,
            final(self).count@[1] == bit_length((old(self)@.len() + n) as nat) / 0x1_0000_0000,
            final(self).buffer == old(self).buffer,
            final(self).state == old(self).state,
            final(self).message == old(self).message,
    {
        let bits: u64 = (self.count[1] as u64) * 0x1_0000_0000 + (self.count[0] as u64);
        let added: u64 = (n as u64).wrapping_mul(8);
        let total: u64 = bits.wrapping_add(added);
        proof {
            let len = self@.len();
            assert(bits == bit_length(len));
            assert(added == (8 * n as int) % 0x1_0000_0000_0000_0000);
            lemma_bit_length_sum(len, n as nat, total as int);
        }
        self.count[0] = (total % 0x1_0000_0000) as u32;
        self.count[1] = (total / 0x1_0000_0000) as u32;
    }

    /// Puts `byte` behind the `k` bytes that wait in the buffer, and absorbs
    /// the buffer once it is full. Gives the number of bytes that wait then.
    fn feed(&mut self, k: usize, byte: u8, Ghost(fed): Ghost<Seq<u8>>) -> (waiting: usize)
        requires
            old(self).holds(fed),
            k == fed.len() % 64,
        ensures
            final(self).holds(fed.push(byte)),
            waiting == (fed.len() + 1) % 64,
            final(self).count == old(self).count,
            final(self).message == old(self).message,
    {
        let ghost full = fed.len() as int / 64;
        let ghost next = fed.push(byte);
        proof {
            assert(fed.len() == 64 * full + k);
            lemma_absorb_push(INITIAL_STATE@, fed, byte, full);
        }
        self.buffer[k] = byte;
        if k == 63 {
            let words = words_of_block(&self.buffer);
            proof {
                assert(self.buffer@ =~= next.subrange(64 * full, 64 * full + 64));
                vstd::arithmetic::div_mod::lemma_fundamental_div_mod_converse(
                    next.len() as int,
                    64,
                    full + 1,
                    0,
                );
            }
            transform(&mut self.state, &words);
            0
        } else {
            proof {
                vstd::arithmetic::div_mod::lemma_fundamental_div_mod_converse(
                    next.len() as int,
                    64,
                    full,
                    k + 1,
                );
            }
            k + 1
        }
    }

    /// Consumes `data`: the bytes consumed so far are followed by those of
    /// `data`.
    pub fn consume(&mut self, data: &[u8])
        requires
            old(self).wf(),
        ensures
            final(self).wf(),
            final(self)@ == old(self)@ + data@,
    {
        let ghost before = self@;
        let mut k: usize = self.pending();
        self.lengthen(data.len());
        let mut j: usize = 0;
        assert(before + data@.take(0) =~= before);
        while j < data.len()
            invariant
                j <= data.len(),
                k == (before.len() + j) % 64,
                self.count@[0] == bit_length((before.len() + data.len()) as nat) % 0x1_0000_0000,
                self.count@[1] == bit_length((before.len() + data.len()) as nat) / 0x1_0000_0000,
                self.message@ == before,
                self.holds(before + data@.take(j as int)),
            decreases data.len() - j,
        {
            let ghost fed = before + data@.take(j as int);
            k = self.feed(k, data[j], Ghost(fed));
            j = j + 1;
            assert(before + data@.take(j as int) =~= fed.push(data@[j - 1]));
        }
        proof {
            assert(data@.take(data.len() as int) =~= data@);
            self.message@ = before + data@;
        }
    }

    /// The digest of the bytes consumed.
    pub fn compute(self) -> (digest: Digest)
        requires
            self.wf(),
        ensures
            digest@ == md5(self@),
    {
        let mut context = self;
        let ghost msg = context@;
        let ghost fill = zero_fill(msg.len());
        let low = to_le_bytes(context.count[0]);
        let high = to_le_bytes(context.count[1]);
        let mut k: usize = context.pending();
        k = context.feed(k, 0x80, Ghost(msg));
        let ghost mut zeros: nat = 0;
        let ghost mut fed = msg.push(0x80u8);
        proof {
            lemma_padded_len(msg);
            assert(fed =~= msg + seq![0x80u8] + Seq::new(zeros, |i: int| 0u8));
        }
        while k != 56
            invariant
                k == fed.len() % 64,
                zeros <= fill,
                fill == zero_fill(msg.len()),
                (msg.len() + 1 + fill) % 64 == 56,
                fed == msg + seq![0x80u8] + Seq::new(zeros, |i: int| 0u8),
                context.holds(fed),
            decreases fill - zeros,
        {
            proof {
                if zeros == fill {
                    assert(fed.len() == msg.len() + 1 + fill);
                }
            }
            k = context.feed(k, 0, Ghost(fed));
            proof {
                assert(fed.push(0u8) =~= msg + seq![0x80u8] + Seq::new(zeros + 1, |i: int| 0u8));
                fed = fed.push(0u8);
                zeros = zeros + 1;
            }
        }
        proof {
            assert(zeros == fill) by {
                let reached = msg.len() + 1 + zeros;
                assert(fed.len() == reached);
                assert(reached % 64 == 56);
                assert(0 <= fill - zeros < 64);
                if zeros < fill {
                    vstd::arithmetic::div_mod::lemma_fundamental_div_mod(reached as int, 64);
                    vstd::arithmetic::div_mod::lemma_fundamental_div_mod_converse(
                        reached + (fill - zeros),
                        64,
                        reached as int / 64,
                        56 + (fill - zeros),
                    );
                }
            }
        }
        let ghost start = fed;
        let mut i: usize = 0;
        while i < 8
            invariant
                i <= 8,
                k == fed.len() % 64,
                low@ == le_bytes(self.count@[0]),
                high@ == le_bytes(self.count@[1]),
                fed == start + (low@ + high@).take(i as int),
                context.holds(fed),
            decreases 8 - i,
        {
            let byte = if i < 4 {
                low[i]
            } else {
                high[i - 4]
            };
            k = context.feed(k, byte, Ghost(fed));
            proof {
                assert(fed.push(byte) =~= start + (low@ + high@).take(i + 1));
                fed = fed.push(byte);
            }
            i = i + 1;
        }
        proof {
            assert(fed =~= padded(msg));
        }
        digest_from(&context.state)
    }
}

} // verus!
