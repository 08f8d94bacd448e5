//! Solving a column that was encrypted with one repeated byte: every key is
//! tried, and the one whose output looks most like prose wins.

use crate::cipher::{decrypt_single_key, xor_with_byte, CipherText, PlainText};
use vstd::prelude::*;

verus! {

/// The first lower-case ASCII letter.
pub const LETTER_FIRST: u8 = 97;

/// The last lower-case ASCII letter.
pub const LETTER_LAST: u8 = 122;

/// The first byte of the punctuation range.
pub const PUNCTUATION_FIRST: u8 = 33;

/// The last byte of the punctuation range.
pub const PUNCTUATION_LAST: u8 = 64;

/// Whether `byte` is a lower-case ASCII letter.
pub open spec fn is_letter(byte: u8) -> bool {
    LETTER_FIRST <= byte <= LETTER_LAST
}

/// Whether `byte` lies in the punctuation range.
pub open spec fn is_punctuation(byte: u8) -> bool {
    PUNCTUATION_FIRST <= byte <= PUNCTUATION_LAST
}

/// The score after `byte`, given the score before it: a letter adds a
/// point, punctuation takes one away while there is one, and every other
/// byte leaves the score alone.
pub open spec fn score_step(points: nat, byte: u8) -> nat {
    if is_letter(byte) {
        points + 1
    } else if is_punctuation(byte) && points > 0 {
        (points - 1) as nat
    } else {
        points
    }
}

/// How much `bytes` look like prose: the score after scanning them in
/// order, starting from zero.
pub open spec fn plausibility(bytes: Seq<u8>) -> nat
    decreases bytes.len(),
{
    if bytes.len() == 0 {
        0
    } else {
        score_step(plausibility(bytes.drop_last()), bytes.last())
    }
}

/// The plausibility of `column` decrypted with `key`.
pub open spec fn key_score(column: Seq<u8>, key: u8) -> nat {
    plausibility(xor_with_byte(column, key))
}

/// Whether `key` gives `column` its highest score and no smaller key gives
/// the same.
pub open spec fn is_best_key(column: Seq<u8>, key: u8) -> bool {
    forall|other: u8|
        #[trigger] key_score(column, other) <= key_score(column, key) && (other < key
            ==> key_score(column, other) < key_score(column, key))
}

/// The smallest key that gives `column` its highest score.
pub open spec fn best_key(column: Seq<u8>) -> u8 {
    choose|key: u8| is_best_key(column, key)
}

/// `column` decrypted with its best key.
pub open spec fn solved(column: Seq<u8>) -> Seq<u8> {
    xor_with_byte(column, best_key(column))
}

/// A score is never more than the number of bytes scanned.
pub proof fn lemma_plausibility_bound(bytes: Seq<u8>)
    ensures
        plausibility(bytes) <= bytes.len(),
    decreases bytes.len(),
{
    if bytes.len() > 0 {
        lemma_plausibility_bound(bytes.drop_last());
    }
}

/// Bytes without a lower-case letter score zero, so no other bytes score
/// lower than they do.
pub proof fn lemma_no_letters_scores_zero(bytes: Seq<u8>)
    requires
        forall|i: int| 0 <= i < bytes.len() ==> !is_letter(#[trigger] bytes[i]),
    ensures
        plausibility(bytes) == 0,
        forall|other: Seq<u8>| plausibility(bytes) <= #[trigger] plausibility(other),
    decreases bytes.len(),
{
    if bytes.len() > 0 {
        lemma_no_letters_scores_zero(bytes.drop_last());
    }
}

/// A column has at most one best key.
pub proof fn lemma_best_key_unique(column: Seq<u8>, first: u8, second: u8)
    requires
        is_best_key(column, first),
        is_best_key(column, second),
    ensures
        first == second,
{
    if first < second {
        assert(key_score(column, first) < key_score(column, second));
        assert(key_score(column, second) <= key_score(column, first));
    } else if second < first {
        assert(key_score(column, second) < key_score(column, first));
        assert(key_score(column, first) <= key_score(column, second));
    }
}

/// Where a plaintext scores strictly higher than each of its 255 other
/// single-byte XOR images, solving its encryption under any key byte finds
/// that key and gives the plaintext back.
pub proof fn lemma_single_key_recovery(plain: Seq<u8>, key: u8)
    requires
        forall|delta: u8| delta != 0 ==> #[trigger] key_score(plain, delta) < key_score(plain, 0),
    ensures
        is_best_key(xor_with_byte(plain, key), key),
        best_key(xor_with_byte(plain, key)) == key,
        solved(xor_with_byte(plain, key)) == plain,
{
    let cipher = xor_with_byte(plain, key);
    assert forall|other: u8| #[trigger]
        key_score(cipher, other) == key_score(plain, key ^ other) by {
        assert forall|i: int| 0 <= i < plain.len() implies xor_with_byte(cipher, other)[i]
            == xor_with_byte(plain, key ^ other)[i] by {
            let byte = plain[i];
            assert((byte ^ key) ^ other == byte ^ (key ^ other)) by (bit_vector);
        }
        assert(xor_with_byte(cipher, other) =~= xor_with_byte(plain, key ^ other));
    }
    assert(key ^ key == 0) by (bit_vector);
    assert forall|other: u8|
        #[trigger] key_score(cipher, other) <= key_score(cipher, key) && (other < key
            ==> key_score(cipher, other) < key_score(cipher, key)) by {
        if other != key {
            assert(key ^ other != 0) by (bit_vector)
                requires
                    other != key,
            ;
            assert(key_score(plain, key ^ other) < key_score(plain, 0));
        }
    }
    assert(is_best_key(cipher, key));
    lemma_best_key_unique(cipher, key, best_key(cipher));
    assert forall|i: int| 0 <= i < plain.len() implies xor_with_byte(cipher, key)[i]
        == plain[i] by {
        let byte = plain[i];
        assert((byte ^ key) ^ key == byte) by (bit_vector);
    }
    assert(xor_with_byte(cipher, key) =~= plain);
}

/// Scores `input` for how much it looks like prose: lower-case letters add
/// a point each, punctuation after letters takes points away again.
pub fn score(input: &[u8]) -> (points: usize)
    ensures
        points == plausibility(input@),
{
    let mut points: usize = 0;
    let mut i: usize = 0;
    while i < input.len()
        invariant
            i <= input@.len(),
            points == plausibility(input@.take(i as int)),
            points <= i,
        decreases input@.len() - i,
    {
        let byte: u8 = input[i];
        proof {
            assert(input@.take(i + 1).drop_last() =~= input@.take(i as int));
        }
        if byte >= LETTER_FIRST && byte <= LETTER_LAST {
            points += 1;
        } else if byte >= PUNCTUATION_FIRST && byte <= PUNCTUATION_LAST && points > 0 {
            points -= 1;
        }
        i += 1;
    }
    proof {
        assert(input@.take(i as int) =~= input@);
    }
    points
}

/// Finds the key byte under which `cipher` decrypts to the highest score;
/// among keys with that score, the smallest.
pub fn find_single_key(cipher: &CipherText) -> (key: u8)
    ensures
        is_best_key(cipher@, key),
        key == best_key(cipher@),
{
    let mut best: u8 = 0;
    let mut best_score: usize = key_points(cipher, 0);
    let mut key: u8 = 0;
    while key < 255
        invariant
            best <= key,
            best_score == key_score(cipher@, best),
            forall|other: u8|
                other <= key ==> #[trigger] key_score(cipher@, other) <= best_score && (other
                    < best ==> key_score(cipher@, other) < best_score),
        decreases 255 - key,
    {
        key += 1;
        let points = key_points(cipher, key);
        if points > best_score {
            best_score = points;
            best = key;
        }
    }
    proof {
        assert(is_best_key(cipher@, best));
        lemma_best_key_unique(cipher@, best, best_key(cipher@));
    }
    best
}

/// The score of `cipher` decrypted with `key`.
fn key_points(cipher: &CipherText, key: u8) -> (points: usize)
    ensures
        points == key_score(cipher@, key),
{
    let candidate = decrypt_single_key(cipher, key).unwrap();
    score(candidate.as_slice())
}

/// Decrypts `cipher` with the key byte that gives the most plausible text.
/// An empty column comes back empty.
pub fn decode_single_key(cipher: &CipherText) -> (plain: PlainText)
    ensures
        plain@ == solved(cipher@),
        plain@.len() == cipher@.len(),
{
    let key = find_single_key(cipher);
    decrypt_single_key(cipher, key).unwrap()
}

} // verus!
