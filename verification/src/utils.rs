use crate::md5::{block_words, md5, Context, Digest};
use crate::word::{le_bytes, lemma_le_round_trip, to_le_bytes};
use vstd::prelude::*;
use vstd::string::StringSliceAdditionalSpecFns;

verus! {

/// Whether a byte separates words: space, tab, line feed, form feed or
/// carriage return.
pub open spec fn is_space(b: u8) -> bool {
    b == 0x20 || b == 0x09 || b == 0x0a || b == 0x0c || b == 0x0d
}

/// The value of a hexadecimal digit, in either case.
pub open spec fn digit_value(b: u8) -> Option<int> {
    if 0x30 <= b <= 0x39 {
        Some(b - 0x30)
    } else if 0x61 <= b <= 0x66 {
        Some(b - 0x61 + 10)
    } else if 0x41 <= b <= 0x46 {
        Some(b - 0x41 + 10)
    } else {
        None
    }
}

/// The number that a run of hexadecimal digits writes, most significant
/// digit first; `None` where a byte of the run is no digit.
pub open spec fn digits_value(run: Seq<u8>) -> Option<int>
    decreases run.len(),
{
    if run.len() == 0 {
        Some(0)
    } else {
        match (digits_value(run.drop_last()), digit_value(run.last())) {
            (Some(high), Some(low)) => Some(16 * high + low),
            _ => None,
        }
    }
}

/// The word that a run of bytes writes: the run is one to eight hexadecimal
/// digits, so its number fits in 32 bits.
pub open spec fn word_value(run: Seq<u8>) -> Option<u32> {
    if 1 <= run.len() <= 8 {
        match digits_value(run) {
            Some(v) => Some(v as u32),
            None => None,
        }
    } else {
        None
    }
}

/// What has been read of a text: the words of the runs that a separator has
/// closed, or `None` if one of them was no word, and the run that is still
/// open at the end.
pub struct Scan {
    pub words: Option<Seq<u32>>,
    pub run: Seq<u8>,
}

/// `words` followed by the word of `run`, if there is a run.
pub open spec fn with_run(words: Option<Seq<u32>>, run: Seq<u8>) -> Option<Seq<u32>> {
    if run.len() == 0 {
        words
    } else {
        match (words, word_value(run)) {
            (Some(ws), Some(w)) => Some(ws.push(w)),
            _ => None,
        }
    }
}

/// What has been read once all of `text` has gone by.
pub open spec fn scan(text: Seq<u8>) -> Scan
    decreases text.len(),
{
    if text.len() == 0 {
        Scan { words: Some(Seq::empty()), run: Seq::empty() }
    } else {
        let before = scan(text.drop_last());
        if is_space(text.last()) {
            Scan { words: with_run(before.words, before.run), run: Seq::empty() }
        } else {
            Scan { words: before.words, run: before.run.push(text.last()) }
        }
    }
}

/// The words of a fixture text: its maximal runs of bytes that are no
/// separators, each read as a word; `None` if one of them is no word.
pub open spec fn fixture_words(text: Seq<u8>) -> Option<Seq<u32>> {
    with_run(scan(text).words, scan(text).run)
}

/// The words of two texts, one after the other; `None` if either has none.
pub open spec fn joined(left: Option<Seq<u32>>, right: Option<Seq<u32>>) -> Option<Seq<u32>> {
    match (left, right) {
        (Some(l), Some(r)) => Some(l + r),
        _ => None,
    }
}

/// A text without a separator is still one open run when it has gone by.
proof fn lemma_scan_of_run(run: Seq<u8>)
    requires
        forall|i: int| 0 <= i < run.len() ==> !is_space(run[i]),
    ensures
        scan(run).words == Some(Seq::<u32>::empty()),
        scan(run).run == run,
    decreases run.len(),
{
    if run.len() > 0 {
        lemma_scan_of_run(run.drop_last());
        assert(run.drop_last().push(run.last()) =~= run);
    }
}

/// A text that holds no separator and at least one byte is one word, or no
/// fixture text at all.
pub proof fn lemma_words_of_one_run(run: Seq<u8>)
    requires
        run.len() > 0,
        forall|i: int| 0 <= i < run.len() ==> !is_space(run[i]),
    ensures
        fixture_words(run) == match word_value(run) {
            Some(w) => Some(seq![w]),
            None => None,
        },
{
    lemma_scan_of_run(run);
    if word_value(run) is Some {
        assert(Seq::<u32>::empty().push(word_value(run)->0) =~= seq![word_value(run)->0]);
    }
}

/// Closing a run behind the words of two texts is closing it behind the
/// words of the second.
proof fn lemma_joined_with_run(left: Option<Seq<u32>>, right: Option<Seq<u32>>, run: Seq<u8>)
    ensures
        with_run(joined(left, right), run) == joined(left, with_run(right, run)),
{
    if left is Some && right is Some && run.len() > 0 && word_value(run) is Some {
        let w = word_value(run)->0;
        assert((left->0 + right->0).push(w) =~= left->0 + right->0.push(w));
    }
}

/// What has been read of a text after a separator, from what has been read
/// of the text alone.
proof fn lemma_scan_after_separator(left: Seq<u8>, sep: u8, right: Seq<u8>)
    requires
        is_space(sep),
    ensures
        scan(left + seq![sep] + right).run == scan(right).run,
        scan(left + seq![sep] + right).words == joined(fixture_words(left), scan(right).words),
    decreases right.len(),
{
    let text = left + seq![sep] + right;
    if right.len() == 0 {
        assert(text.drop_last() =~= left);
        if fixture_words(left) is Some {
            assert(fixture_words(left)->0 + Seq::<u32>::empty() =~= fixture_words(left)->0);
        }
    } else {
        let shorter = right.drop_last();
        lemma_scan_after_separator(left, sep, shorter);
        assert(text.drop_last() =~= left + seq![sep] + shorter);
        assert(text.last() == right.last());
        lemma_joined_with_run(fixture_words(left), scan(shorter).words, scan(shorter).run);
    }
}

/// The words of a text are the words of what stands before one of its
/// separators, followed by the words of what stands behind it.
pub proof fn lemma_words_of_parts(left: Seq<u8>, sep: u8, right: Seq<u8>)
    requires
        is_space(sep),
    ensures
        fixture_words(left + seq![sep] + right) == joined(
            fixture_words(left),
            fixture_words(right),
        ),
{
    lemma_scan_after_separator(left, sep, right);
    lemma_joined_with_run(fixture_words(left), scan(right).words, scan(right).run);
}

/// The bytes of a sequence of words: four for each, least significant first.
pub open spec fn words_bytes(words: Seq<u32>) -> Seq<u8>
    decreases words.len(),
{
    if words.len() == 0 {
        Seq::empty()
    } else {
        words_bytes(words.drop_last()) + le_bytes(words.last())
    }
}

/// 16 to the power `n`.
spec fn pow16(n: nat) -> int
    decreases n,
{
    if n == 0 {
        1
    } else {
        16 * pow16((n - 1) as nat)
    }
}

/// Up to the eighth, the powers of 16 fit in 33 bits.
proof fn lemma_pow16_bound(n: nat)
    requires
        n <= 8,
    ensures
        0 < pow16(n) <= 0x1_0000_0000,
{
    reveal_with_fuel(pow16, 9);
}

/// The number that `n` digits write is below 16 to the power `n`.
proof fn lemma_digits_below_power(run: Seq<u8>)
    ensures
        digits_value(run) matches Some(v) ==> 0 <= v < pow16(run.len()),
    decreases run.len(),
{
    if run.len() > 0 {
        lemma_digits_below_power(run.drop_last());
    }
}

/// The number that at most eight hexadecimal digits write fits in 32 bits.
pub proof fn lemma_word_fits(run: Seq<u8>)
    requires
        run.len() <= 8,
    ensures
        digits_value(run) matches Some(v) ==> 0 <= v <= 0xffff_ffff,
{
    lemma_digits_below_power(run);
    lemma_pow16_bound(run.len());
}

/// Whether `b` separates words.
fn is_separator(b: u8) -> (r: bool)
    ensures
        r == is_space(b),
{
    b == 0x20 || b == 0x09 || b == 0x0a || b == 0x0c || b == 0x0d
}

/// The value of `b` as a hexadecimal digit, if it is one.
fn hex_digit_value(b: u8) -> (r: Option<u8>)
    ensures
        match r {
            Some(d) => digit_value(b) == Some(d as int) && d < 16,
            None => digit_value(b) is None,
        },
{
    if 0x30 <= b && b <= 0x39 {
        Some(b - 0x30)
    } else if 0x61 <= b && b <= 0x66 {
        Some(b - 0x61 + 10)
    } else if 0x41 <= b && b <= 0x46 {
        Some(b - 0x41 + 10)
    } else {
        None
    }
}

/// Appends the four bytes of `word` to `out`.
fn push_word(out: &mut Vec<u8>, word: u32)
    ensures
        final(out)@ == old(out)@ + le_bytes(word),
{
    let bytes = to_le_bytes(word);
    out.push(bytes[0]);
    out.push(bytes[1]);
    out.push(bytes[2]);
    out.push(bytes[3]);
    assert(out@ =~= old(out)@ + le_bytes(word));
}

/// Each word gives four bytes: byte `i` of the whole is byte `i % 4` of word
/// `i / 4`.
pub proof fn lemma_words_bytes(words: Seq<u32>)
    ensures
        words_bytes(words).len() == 4 * words.len(),
        forall|i: int|
            0 <= i < 4 * words.len() ==> words_bytes(words)[i] == le_bytes(
                #[trigger] words[i / 4],
            )[i % 4],
    decreases words.len(),
{
    if words.len() > 0 {
        lemma_words_bytes(words.drop_last());
        let head = words_bytes(words.drop_last());
        assert forall|i: int| 0 <= i < 4 * words.len() implies words_bytes(words)[i] == le_bytes(
            #[trigger] words[i / 4],
        )[i % 4] by {
            if i < 4 * (words.len() - 1) {
                assert(words.drop_last()[i / 4] == words[i / 4]);
                assert(words_bytes(words)[i] == head[i]);
            } else {
                assert(i / 4 == words.len() - 1);
                assert(words_bytes(words)[i] == le_bytes(words.last())[i - head.len()]);
            }
        }
    }
}

/// Reading the bytes of 16 words as a block gives the 16 words back.
pub proof fn lemma_block_of_words_bytes(words: Seq<u32>)
    requires
        words.len() == 16,
    ensures
        block_words(words_bytes(words)) == words,
{
    lemma_words_bytes(words);
    let bytes = words_bytes(words);
    assert forall|i: int| 0 <= i < 16 implies block_words(bytes)[i] == words[i] by {
        let w = words[i];
        assert(words[(4 * i) / 4] == w && words[(4 * i + 1) / 4] == w && words[(4 * i + 2) / 4]
            == w && words[(4 * i + 3) / 4] == w);
        assert(bytes[4 * i] == le_bytes(w)[0]);
        assert(bytes[4 * i + 1] == le_bytes(w)[1]);
        assert(bytes[4 * i + 2] == le_bytes(w)[2]);
        assert(bytes[4 * i + 3] == le_bytes(w)[3]);
        lemma_le_round_trip(w, 0, 0, 0, 0);
    }
    assert(block_words(bytes) =~= words);
}

/// The bytes of a block of 16 words.
pub fn block_to_bytes(block: &[u32; 16]) -> (bytes: Vec<u8>)
    ensures
        bytes@ == words_bytes(block@),
        bytes@.len() == 64,
{
    let mut bytes: Vec<u8> = Vec::new();
    let mut i: usize = 0;
    assert(block@.take(0) =~= Seq::<u32>::empty());
    while i < 16
        invariant
            i <= 16,
            bytes@ == words_bytes(block@.take(i as int)),
        decreases 16 - i,
    {
        proof {
            assert(block@.take(i + 1).drop_last() =~= block@.take(i as int));
        }
        push_word(&mut bytes, block[i]);
        i = i + 1;
    }
    proof {
        assert(block@.take(16) =~= block@);
        lemma_words_bytes(block@);
    }
    bytes
}

/// Reads a fixture text: words of one to eight hexadecimal digits, parted by
/// separators. Gives the bytes of the words, or `None` if a run of the text
/// is no word.
pub fn try_str_to_bytes(s: &str) -> (r: Option<Vec<u8>>)
    ensures
        match r {
            Some(bytes) => fixture_words(s.spec_bytes()) matches Some(words) && bytes@
                == words_bytes(words),
            None => fixture_words(s.spec_bytes()) is None,
        },
{
    let text = s.as_bytes();
    let mut out: Vec<u8> = Vec::new();
    let mut sound: bool = true;
    let mut count: usize = 0;
    let mut value: u32 = 0;
    let mut digits: bool = true;
    let mut i: usize = 0;
    assert(text@.take(0) =~= Seq::<u8>::empty());
    while i < text.len()
        invariant
            i <= text.len(),
            text@ == s.spec_bytes(),
            count <= i,
            count == scan(text@.take(i as int)).run.len(),
            sound <==> scan(text@.take(i as int)).words is Some,
            sound ==> out@ == words_bytes(scan(text@.take(i as int)).words->0),
            digits <==> digits_value(scan(text@.take(i as int)).run) is Some,
            digits && count <= 8 ==> digits_value(scan(text@.take(i as int)).run) == Some(
                value as int,
            ) && value < pow16(count as nat),
        decreases text.len() - i,
    {
        let b = text[i];
        proof {
            assert(text@.take(i + 1).drop_last() =~= text@.take(i as int));
            if count <= 8 {
                lemma_pow16_bound(count as nat);
            }
            if count < 8 {
                lemma_pow16_bound((count + 1) as nat);
            }
        }
        let ghost before = scan(text@.take(i as int));
        if is_separator(b) {
            if count > 0 {
                if sound && digits && count <= 8 {
                    push_word(&mut out, value);
                    proof {
                        let ws = before.words->0;
                        assert(ws.push(value).drop_last() =~= ws);
                    }
                } else {
                    sound = false;
                }
            }
            count = 0;
            value = 0;
            digits = true;
        } else {
            proof {
                assert(before.run.push(b).drop_last() =~= before.run);
            }
            match hex_digit_value(b) {
                Some(d) => {
                    if digits && count < 8 {
                        value = value * 16 + d as u32;
                    }
                },
                None => {
                    digits = false;
                },
            }
            count = count + 1;
        }
        i = i + 1;
    }
    assert(text@.take(text.len() as int) =~= text@);
    proof {
        if count <= 8 {
            lemma_pow16_bound(count as nat);
        }
    }
    if count > 0 {
        if sound && digits && count <= 8 {
            push_word(&mut out, value);
            proof {
                let ws = scan(text@).words->0;
                assert(ws.push(value).drop_last() =~= ws);
            }
        } else {
            sound = false;
        }
    }
    if sound {
        Some(out)
    } else {
        None
    }
}

/// The bytes of a fixture text that holds only words.
pub fn str_to_bytes(s: &str) -> (bytes: Vec<u8>)
    requires
        fixture_words(s.spec_bytes()) is Some,
    ensures
        bytes@ == words_bytes(fixture_words(s.spec_bytes())->0),
{
    match try_str_to_bytes(s) {
        Some(bytes) => bytes,
        None => unreached(),
    }
}

/// The digest of the message made of `first` followed by `second`.
pub fn digest_pair(first: &Vec<u8>, second: &Vec<u8>) -> (digest: Digest)
    ensures
        digest@ == md5(first@ + second@),
{
    let mut context = Context::new();
    context.consume(first.as_slice());
    context.consume(second.as_slice());
    assert(Seq::<u8>::empty() + first@ + second@ =~= first@ + second@);
    context.compute()
}

/// Whether two messages have the same digest.
pub open spec fn same_digest(m0: Seq<u8>, m1: Seq<u8>, m0_p: Seq<u8>, m1_p: Seq<u8>) -> bool {
    md5(m0 + m1) == md5(m0_p + m1_p)
}

/// Verification is decided by the four blocks: two answers that are both
/// what `verify` promises for the same four blocks are the same answer.
pub proof fn lemma_verify_repeats(
    m0: Seq<u8>,
    m1: Seq<u8>,
    m0_p: Seq<u8>,
    m1_p: Seq<u8>,
    first: bool,
    second: bool,
)
    requires
        first == same_digest(m0, m1, m0_p, m1_p),
        second == same_digest(m0, m1, m0_p, m1_p),
    ensures
        first == second,
{
}

/// Whether the message `m0` followed by `m1` and the message `m0_p` followed
/// by `m1_p` have the same digest.
pub fn verify(m0: &Vec<u8>, m1: &Vec<u8>, m0_p: &Vec<u8>, m1_p: &Vec<u8>) -> (same: bool)
    ensures
        same == same_digest(m0@, m1@, m0_p@, m1_p@),
{
    let digest = digest_pair(m0, m1);
    let digest_p = digest_pair(m0_p, m1_p);
    digest == digest_p
}

} // verus!
