//! Breaking a repeating-key XOR cipher: for a key length, the ciphertext is
//! dealt out into columns, each column is solved as a single-byte cipher,
//! and the columns are put back together. Where the key length is unknown,
//! the shortlisted lengths are tried and the most plausible result is kept.

use crate::byte_matrix::{
    column, columns_of, dealt_back, interleaved, is_dealt, lemma_column_reach,
    lemma_interleaved_dealt, ByteMatrix,
};
use crate::cipher::{xor_with_key, CipherText, Error, PlainText};
use crate::key_size::{
    default_shortlist, guess_key_size, is_candidate, rank_key_sizes, shortlist, DEFAULT_MAX_SIZE,
    DEFAULT_MIN_SIZE,
};
use crate::single_key::{best_key, decode_single_key, plausibility, score, solved};
use vstd::arithmetic::div_mod::lemma_fundamental_div_mod;
use vstd::prelude::*;

verus! {

/// The columns of `cipher` for a key of `size` bytes, each one solved.
pub open spec fn solved_columns(cipher: Seq<u8>, size: nat) -> Seq<Seq<u8>> {
    Seq::new(size, |index: int| solved(column(cipher, size, index as nat)))
}

/// What breaking `cipher` under a key length of `size` gives: the solved
/// columns, put back together.
pub open spec fn broken(cipher: Seq<u8>, size: nat) -> Seq<u8> {
    interleaved(solved_columns(cipher, size))
}

/// The key of `size` bytes that breaking `cipher` settles on: for each key
/// position the best key of its column.
pub open spec fn recovered_key(cipher: Seq<u8>, size: nat) -> Seq<u8> {
    Seq::new(size, |index: int| best_key(column(cipher, size, index as nat)))
}

/// The plausibility of `cipher` broken under a key length of `size`.
pub open spec fn guess_score(cipher: Seq<u8>, size: u32) -> nat {
    plausibility(broken(cipher, size as nat))
}

/// Whether the key length at place `at` of `sizes` gives the result to
/// keep: its score is positive, no other is higher, and every earlier one
/// is lower.
pub open spec fn is_best_guess(cipher: Seq<u8>, sizes: Seq<u32>, at: int) -> bool {
    &&& 0 <= at < sizes.len()
    &&& guess_score(cipher, sizes[at]) > 0
    &&& forall|i: int|
        0 <= i < sizes.len() ==> guess_score(cipher, #[trigger] sizes[i]) <= guess_score(
            cipher,
            sizes[at],
        )
    &&& forall|i: int|
        0 <= i < at ==> guess_score(cipher, #[trigger] sizes[i]) < guess_score(cipher, sizes[at])
}

/// Whether `outcome` is what trying the key lengths `sizes` on `cipher`
/// comes to. A zero among the lengths is refused before anything is scored;
/// no lengths at all means that there was too little data; otherwise the
/// best guess is the result, unless every guess scores zero.
pub open spec fn is_outcome(cipher: Seq<u8>, sizes: Seq<u32>, outcome: Result<PlainText, Error>) -> bool {
    match outcome {
        Ok(plain) => !sizes.contains(0) && exists|at: int|
            is_best_guess(cipher, sizes, at) && plain@ == broken(cipher, #[trigger] sizes[at] as nat),
        Err(Error::InvalidInput) => sizes.contains(0),
        Err(Error::InsufficientData) => sizes.len() == 0,
        Err(Error::NoPlausibleDecryption) => sizes.len() > 0 && !sizes.contains(0) && forall|i: int|
            0 <= i < sizes.len() ==> guess_score(cipher, #[trigger] sizes[i]) == 0,
        Err(_) => false,
    }
}

/// Breaking changes no lengths: the solved columns are dealt as the
/// ciphertext's columns are.
pub proof fn lemma_solved_columns_dealt(cipher: Seq<u8>, size: nat)
    requires
        size >= 1,
    ensures
        is_dealt(solved_columns(cipher, size), cipher.len()),
{
}

/// Breaking a ciphertext under a key length decrypts it with a repeating
/// key of that length: the key that `recovered_key` names.
pub proof fn lemma_broken_is_decryption(cipher: Seq<u8>, size: nat)
    requires
        size >= 1,
    ensures
        broken(cipher, size) == xor_with_key(cipher, recovered_key(cipher, size)),
        broken(cipher, size).len() == cipher.len(),
{
    let columns = solved_columns(cipher, size);
    let key = recovered_key(cipher, size);
    lemma_solved_columns_dealt(cipher, size);
    lemma_interleaved_dealt(columns, cipher.len());
    assert forall|p: int| 0 <= p < cipher.len() implies dealt_back(columns, cipher.len())[p]
        == xor_with_key(cipher, key)[p] by {
        lemma_fundamental_div_mod(p, size as int);
        assert(size * (p / size as int) == (p / size as int) * size) by (nonlinear_arith);
        assert(0 <= p / size as int) by (nonlinear_arith)
            requires
                0 <= p,
                size > 0,
        ;
        lemma_column_reach(cipher.len(), size, (p % size as int) as nat, (p / size as int) as nat);
    }
    assert(dealt_back(columns, cipher.len()) =~= xor_with_key(cipher, key));
}

/// Breaks `cipher` under a known key length: deals it out into `key_size`
/// columns, solves each column by itself, and puts the columns back
/// together.
pub fn break_cipher(cipher: &CipherText, key_size: u32) -> (plain: PlainText)
    requires
        key_size >= 1,
    ensures
        plain@ == broken(cipher@, key_size as nat),
        plain@.len() == cipher@.len(),
{
    let matrix = ByteMatrix::transpose(cipher.as_slice(), key_size as usize);
    let solve = |column: &Vec<u8>| -> (out: Vec<u8>)
        ensures
            out@ == solved(column@),
        {
            let column_cipher = CipherText::new(column.as_slice());
            let column_plain = decode_single_key(&column_cipher);
            column_plain.as_bytes()
        };
    let solved_matrix = matrix.transform(solve);
    proof {
        matrix.lemma_view_of_columns();
        solved_matrix.lemma_view_of_columns();
        assert forall|index: int| 0 <= index < key_size implies solved_matrix@[index]
            == solved_columns(cipher@, key_size as nat)[index] by {
            assert(call_ensures(
                solve,
                (&matrix.columns()[index],),
                solved_matrix.columns()[index],
            ));
            assert(matrix@[index] == column(cipher@, key_size as nat, index as nat));
        }
        assert(solved_matrix@ =~= solved_columns(cipher@, key_size as nat));
        lemma_broken_is_decryption(cipher@, key_size as nat);
    }
    let decoded = solved_matrix.reassemble();
    PlainText::new(decoded.as_slice())
}

/// Breaks `cipher` under a key length that is checked first: a key length
/// of zero, or one longer than the ciphertext, is refused.
pub fn try_break_cipher(cipher: &CipherText, key_size: u32) -> (outcome: Result<PlainText, Error>)
    ensures
        match outcome {
            Ok(plain) => 1 <= key_size <= cipher@.len() && plain@ == broken(
                cipher@,
                key_size as nat,
            ),
            Err(error) => (key_size == 0 || key_size > cipher@.len()) && error is InvalidInput,
        },
{
    if key_size == 0 || key_size as usize > cipher.as_slice().len() {
        Err(Error::InvalidInput)
    } else {
        Ok(break_cipher(cipher, key_size))
    }
}

/// Breaks `cipher` under each of `key_sizes` in turn and keeps the most
/// plausible result; among equally plausible ones, the first.
pub fn decode_with_sizes(cipher: &CipherText, key_sizes: &[u32]) -> (outcome: Result<
    PlainText,
    Error,
>)
    ensures
        is_outcome(cipher@, key_sizes@, outcome),
        outcome matches Ok(plain) ==> plain@.len() == cipher@.len() && plausibility(plain@) > 0,
{
    let mut checked: usize = 0;
    while checked < key_sizes.len()
        invariant
            checked <= key_sizes@.len(),
            forall|i: int| 0 <= i < checked ==> key_sizes@[i] != 0,
        decreases key_sizes@.len() - checked,
    {
        if key_sizes[checked] == 0 {
            return Err(Error::InvalidInput);
        }
        checked += 1;
    }
    if key_sizes.len() == 0 {
        return Err(Error::InsufficientData);
    }
    let mut best_score: usize = 0;
    let mut candidate: Option<PlainText> = None;
    let ghost mut best_at: int = 0;
    let mut tried: usize = 0;
    while tried < key_sizes.len()
        invariant
            tried <= key_sizes@.len(),
            forall|i: int| 0 <= i < key_sizes@.len() ==> key_sizes@[i] != 0,
            forall|i: int|
                0 <= i < tried ==> guess_score(cipher@, #[trigger] key_sizes@[i]) <= best_score,
            candidate is None ==> best_score == 0,
            candidate matches Some(plain) ==> {
                &&& 0 <= best_at < tried
                &&& plain@ == broken(cipher@, key_sizes@[best_at] as nat)
                &&& plain@.len() == cipher@.len()
                &&& best_score == guess_score(cipher@, key_sizes@[best_at])
                &&& best_score > 0
                &&& forall|i: int|
                    0 <= i < best_at ==> guess_score(cipher@, #[trigger] key_sizes@[i])
                        < best_score
            },
        decreases key_sizes@.len() - tried,
    {
        let plain = break_cipher(cipher, key_sizes[tried]);
        let points = score(plain.as_slice());
        if points > best_score {
            best_score = points;
            candidate = Some(plain);
            proof {
                best_at = tried as int;
            }
        }
        tried += 1;
    }
    match candidate {
        None => Err(Error::NoPlausibleDecryption),
        Some(plain) => {
            assert(is_best_guess(cipher@, key_sizes@, best_at));
            Ok(plain)
        },
    }
}

/// Breaks `cipher` without knowing the key length: the key lengths from
/// `min_size` to `max_size` are ranked, the best `limit` of them are tried
/// in ranking order, and the most plausible result is kept. A range that
/// starts at zero is refused.
pub fn decode_text_within(cipher: &CipherText, min_size: u32, max_size: u32, limit: usize) -> (outcome:
    Result<PlainText, Error>)
    ensures
        min_size == 0 ==> outcome matches Err(Error::InvalidInput),
        min_size >= 1 ==> is_outcome(
            cipher@,
            shortlist(cipher@, min_size as int, max_size as int, limit as nat),
            outcome,
        ) && !(outcome matches Err(Error::InvalidInput)),
        min_size >= 1 && (cipher@.len() < 4 * min_size || max_size < min_size || limit == 0)
            ==> outcome matches Err(Error::InsufficientData),
        outcome matches Ok(plain) ==> plain@.len() == cipher@.len() && plausibility(plain@) > 0,
{
    match rank_key_sizes(cipher.as_slice(), min_size, max_size, limit) {
        Ok(key_sizes) => {
            proof {
                if key_sizes@.contains(0) {
                    let at = choose|at: int| 0 <= at < key_sizes@.len() && key_sizes@[at] == 0;
                    assert(is_candidate(
                        cipher@.len(),
                        min_size as int,
                        max_size as int,
                        key_sizes@[at] as int,
                    ));
                }
            }
            decode_with_sizes(cipher, key_sizes.as_slice())
        },
        Err(error) => Err(error),
    }
}

/// Breaks `cipher` without knowing the key length: the key lengths that
/// `guess_key_size` shortlists are tried in ranking order and the most
/// plausible result is kept. A ciphertext too short for any key length,
/// and one for which no key length gives a result that scores above zero,
/// are reported as errors.
pub fn decode_text(cipher: &CipherText) -> (outcome: Result<PlainText, Error>)
    ensures
        is_outcome(cipher@, default_shortlist(cipher@), outcome),
        !(outcome matches Err(Error::InvalidInput)),
        cipher@.len() < 4 ==> outcome matches Err(Error::InsufficientData),
        outcome matches Ok(plain) ==> plain@.len() == cipher@.len() && plausibility(plain@) > 0,
{
    let key_size_guesses = guess_key_size(cipher);
    proof {
        if key_size_guesses@.contains(0) {
            let at = choose|at: int|
                0 <= at < key_size_guesses@.len() && key_size_guesses@[at] == 0;
            assert(is_candidate(
                cipher@.len(),
                DEFAULT_MIN_SIZE as int,
                DEFAULT_MAX_SIZE as int,
                key_size_guesses@[at] as int,
            ));
        }
    }
    decode_with_sizes(cipher, key_size_guesses.as_slice())
}

/// The kept result is determined: a list of key lengths has at most one
/// best guess.
pub proof fn lemma_best_guess_unique(cipher: Seq<u8>, sizes: Seq<u32>, first: int, second: int)
    requires
        is_best_guess(cipher, sizes, first),
        is_best_guess(cipher, sizes, second),
    ensures
        first == second,
{
    if first < second {
        assert(guess_score(cipher, sizes[first]) < guess_score(cipher, sizes[second]));
        assert(guess_score(cipher, sizes[second]) <= guess_score(cipher, sizes[first]));
    } else if second < first {
        assert(guess_score(cipher, sizes[second]) < guess_score(cipher, sizes[first]));
        assert(guess_score(cipher, sizes[first]) <= guess_score(cipher, sizes[second]));
    }
}

} // verus!
