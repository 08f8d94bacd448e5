//! Estimating the length of a repeating key: where the ciphertext is cut
//! into blocks of the true key length, the blocks differ in fewer bits.

use crate::cipher::{CipherText, Error};
use crate::hamming::{bit_distance, hamming};
use vstd::prelude::*;
use vstd::slice::slice_subrange;

verus! {

/// The smallest key length that `guess_key_size` tries.
pub const DEFAULT_MIN_SIZE: u32 = 1;

/// The largest key length that `guess_key_size` tries.
pub const DEFAULT_MAX_SIZE: u32 = 39;

/// The number of key lengths that `guess_key_size` returns at most.
pub const DEFAULT_SHORTLIST: usize = 10;

/// Block number `index` of `cipher` cut into blocks of `size` bytes.
pub open spec fn block(cipher: Seq<u8>, size: int, index: int) -> Seq<u8>
    recommends
        0 <= size,
        0 <= index,
        (index + 1) * size <= cipher.len(),
{
    cipher.subrange(index * size, (index + 1) * size)
}

/// The Hamming distances between the first four blocks of `size` bytes,
/// summed over the six pairs of them.
pub open spec fn block_distance(cipher: Seq<u8>, size: int) -> nat
    recommends
        0 <= size,
        4 * size <= cipher.len(),
{
    hamming(block(cipher, size, 0), block(cipher, size, 1)) + hamming(
        block(cipher, size, 0),
        block(cipher, size, 2),
    ) + hamming(block(cipher, size, 0), block(cipher, size, 3)) + hamming(
        block(cipher, size, 1),
        block(cipher, size, 2),
    ) + hamming(block(cipher, size, 1), block(cipher, size, 3)) + hamming(
        block(cipher, size, 2),
        block(cipher, size, 3),
    )
}

/// Whether a key length `first` with distance `first_distance` has a lower
/// score than a key length `second` with distance `second_distance`, or the
/// same score and a smaller length. The score of a length is its distance
/// divided by six and by the length; the quotients are compared exactly, by
/// cross-multiplying.
pub open spec fn lower_score(
    first_distance: int,
    first: int,
    second_distance: int,
    second: int,
) -> bool {
    first_distance * second < second_distance * first || (first_distance * second
        == second_distance * first && first < second)
}

/// Whether key length `first` ranks before key length `second` for `cipher`.
pub open spec fn ranks_before(cipher: Seq<u8>, first: int, second: int) -> bool {
    lower_score(
        block_distance(cipher, first) as int,
        first,
        block_distance(cipher, second) as int,
        second,
    )
}

/// Whether `size` is a key length to score: positive, inside the range
/// asked for, and with four whole blocks in `len` bytes.
pub open spec fn is_candidate(len: nat, min_size: int, max_size: int, size: int) -> bool {
    1 <= size && min_size <= size <= max_size && 4 * size <= len
}

/// The number of key lengths to score.
pub open spec fn candidate_count(len: nat, min_size: int, max_size: int) -> nat {
    let low = if min_size < 1 {
        1
    } else {
        min_size
    };
    let high = if max_size <= len / 4 {
        max_size
    } else {
        len as int / 4
    };
    if low <= high {
        (high - low + 1) as nat
    } else {
        0
    }
}

/// Whether `sizes` are the best key lengths for `cipher`: as many of the
/// candidates as `limit` allows, in ranking order, and ranking before every
/// candidate that was left out.
pub open spec fn is_shortlist(
    cipher: Seq<u8>,
    min_size: int,
    max_size: int,
    limit: nat,
    sizes: Seq<u32>,
) -> bool {
    &&& sizes.len() == if limit <= candidate_count(cipher.len(), min_size, max_size) {
        limit
    } else {
        candidate_count(cipher.len(), min_size, max_size)
    }
    &&& forall|i: int|
        0 <= i < sizes.len() ==> is_candidate(
            cipher.len(),
            min_size,
            max_size,
            #[trigger] sizes[i] as int,
        )
    &&& forall|i: int, j: int|
        0 <= i < j < sizes.len() ==> #[trigger] ranks_before(
            cipher,
            sizes[i] as int,
            sizes[j] as int,
        )
    &&& forall|size: u32, i: int|
        is_candidate(cipher.len(), min_size, max_size, size as int) && !sizes.contains(size) && 0
            <= i < sizes.len() ==> #[trigger] ranks_before(cipher, sizes[i] as int, size as int)
}

/// The best key lengths for `cipher` among those from `min_size` to
/// `max_size`, at most `limit` of them, best first.
pub open spec fn shortlist(cipher: Seq<u8>, min_size: int, max_size: int, limit: nat) -> Seq<u32> {
    choose|sizes: Seq<u32>| is_shortlist(cipher, min_size, max_size, limit, sizes)
}

/// A key length with the evidence for it. Its score is `distance` divided by
/// six and by `size`; a lower score makes the length more likely.
#[derive(Clone, Copy, Debug)]
pub struct KeyScore {
    /// The key length.
    pub size: u32,
    /// The Hamming distances between the first four blocks of that length,
    /// summed over the six pairs of them.
    pub distance: u64,
}

impl KeyScore {
    /// Whether `self` has the lower score, or the same score and the
    /// smaller length.
    pub open spec fn precedes(self, other: KeyScore) -> bool {
        lower_score(self.distance as int, self.size as int, other.distance as int, other.size as int)
    }

    /// Whether `self` ranks before `other`.
    pub fn ranks_before(&self, other: &KeyScore) -> (before: bool)
        ensures
            before == self.precedes(*other),
    {
        proof {
            lemma_product_fits(self.distance, other.size);
            lemma_product_fits(other.distance, self.size);
        }
        let left: u128 = (self.distance as u128) * (other.size as u128);
        let right: u128 = (other.distance as u128) * (self.size as u128);
        left < right || (left == right && self.size < other.size)
    }
}

/// A distance times a key length fits in 128 bits.
proof fn lemma_product_fits(distance: u64, size: u32)
    ensures
        0 <= distance * size <= u128::MAX,
{
    assert(0 <= distance * size <= 0xffff_ffff_ffff_ffff * 0xffff_ffff) by (nonlinear_arith)
        requires
            0 <= distance <= 0xffff_ffff_ffff_ffff,
            0 <= size <= 0xffff_ffff,
    ;
}

/// The ranking is transitive on positive key lengths.
pub proof fn lemma_lower_score_transitive(
    first_distance: int,
    first: int,
    second_distance: int,
    second: int,
    third_distance: int,
    third: int,
)
    requires
        first > 0,
        second > 0,
        third > 0,
        lower_score(first_distance, first, second_distance, second),
        lower_score(second_distance, second, third_distance, third),
    ensures
        lower_score(first_distance, first, third_distance, third),
{
    let x = first_distance * second;
    let y = second_distance * first;
    let u = second_distance * third;
    let v = third_distance * second;
    let s = first_distance * third;
    let t = third_distance * first;
    assert(x * third == s * second) by (nonlinear_arith)
        requires
            x == first_distance * second,
            s == first_distance * third,
    ;
    assert(y * third == u * first) by (nonlinear_arith)
        requires
            y == second_distance * first,
            u == second_distance * third,
    ;
    assert(v * first == t * second) by (nonlinear_arith)
        requires
            v == third_distance * second,
            t == third_distance * first,
    ;
    assert(x <= y && u <= v);
    assert(x * third <= y * third) by (nonlinear_arith)
        requires
            x <= y,
            third > 0,
    ;
    assert(u * first <= v * first) by (nonlinear_arith)
        requires
            u <= v,
            first > 0,
    ;
    if x < y {
        assert(x * third < y * third) by (nonlinear_arith)
            requires
                x < y,
                third > 0,
        ;
    }
    if u < v {
        assert(u * first < v * first) by (nonlinear_arith)
            requires
                u < v,
                first > 0,
        ;
    }
    assert(s * second <= t * second);
    assert(s <= t) by (nonlinear_arith)
        requires
            s * second <= t * second,
            second > 0,
    ;
    if x < y || u < v {
        assert(s * second < t * second);
        assert(s < t) by (nonlinear_arith)
            requires
                s * second < t * second,
                second > 0,
        ;
    } else {
        assert(s * second == t * second);
        assert(s == t) by (nonlinear_arith)
            requires
                s * second == t * second,
                second > 0,
        ;
    }
}

/// Scores the key length `size`: sums the Hamming distances between the
/// first four blocks of `size` bytes over the six pairs of them.
pub fn calc_size_score(cipher: &[u8], size: u32) -> (entry: KeyScore)
    requires
        1 <= size,
        4 * size <= cipher@.len(),
    ensures
        entry.size == size,
        entry.distance == block_distance(cipher@, size as int),
        entry.distance <= 48 * size,
{
    let n: usize = size as usize;
    assert(4 * n <= cipher.len());
    let b1 = slice_subrange(cipher, 0, n);
    let b2 = slice_subrange(cipher, n, 2 * n);
    let b3 = slice_subrange(cipher, 2 * n, 3 * n);
    let b4 = slice_subrange(cipher, 3 * n, 4 * n);
    let d1 = bit_distance(b1, b2);
    let d2 = bit_distance(b1, b3);
    let d3 = bit_distance(b1, b4);
    let d4 = bit_distance(b2, b3);
    let d5 = bit_distance(b2, b4);
    let d6 = bit_distance(b3, b4);
    KeyScore { size, distance: d1 + d2 + d3 + d4 + d5 + d6 }
}

/// Whether `entries` stand in ranking order, each with a positive length.
pub open spec fn is_ranked(entries: Seq<KeyScore>) -> bool {
    &&& forall|i: int| 0 <= i < entries.len() ==> (#[trigger] entries[i]).size >= 1
    &&& forall|i: int, j: int|
        0 <= i < j < entries.len() ==> (#[trigger] entries[i]).precedes(#[trigger] entries[j])
}

/// Whether one of `entries` is for the key length `size`.
pub open spec fn holds_size(entries: Seq<KeyScore>, size: int) -> bool {
    exists|i: int| 0 <= i < entries.len() && (#[trigger] entries[i]).size == size
}

/// Puts `entry` into `entries` at its place in the ranking.
fn insert_ranked(entries: &mut Vec<KeyScore>, entry: KeyScore) -> (place: usize)
    requires
        is_ranked(old(entries)@),
        entry.size >= 1,
        !holds_size(old(entries)@, entry.size as int),
    ensures
        place <= old(entries)@.len(),
        final(entries)@ == old(entries)@.insert(place as int, entry),
        is_ranked(final(entries)@),
{
    let ghost before = entries@;
    let mut place: usize = 0;
    while place < entries.len() && entries[place].ranks_before(&entry)
        invariant
            place <= entries@.len(),
            entries@ == before,
            forall|i: int| 0 <= i < place ==> (#[trigger] before[i]).precedes(entry),
        decreases entries@.len() - place,
    {
        place += 1;
    }
    entries.insert(place, entry);
    proof {
        let after = entries@;
        before.insert_ensures(place as int, entry);
        assert forall|i: int, j: int| 0 <= i < j < after.len() implies (#[trigger] after[i]).precedes(
            #[trigger] after[j],
        ) by {
            if j < place {
                assert(after[i] == before[i] && after[j] == before[j]);
            } else if j == place {
                assert(after[i] == before[i]);
            } else if i == place {
                let next = before[place as int];
                assert(after[j] == before[j - 1]);
                assert(next.size != entry.size);
                assert(entry.precedes(next));
                if j - 1 > place {
                    assert(next.precedes(before[j - 1]));
                    lemma_lower_score_transitive(
                        entry.distance as int,
                        entry.size as int,
                        next.distance as int,
                        next.size as int,
                        before[j - 1].distance as int,
                        before[j - 1].size as int,
                    );
                }
            } else if i < place {
                assert(after[i] == before[i] && after[j] == before[j - 1]);
            } else {
                assert(after[i] == before[i - 1] && after[j] == before[j - 1]);
            }
        }
        assert forall|i: int| 0 <= i < after.len() implies (#[trigger] after[i]).size >= 1 by {
            if i < place {
                assert(after[i] == before[i]);
            } else if i > place {
                assert(after[i] == before[i - 1]);
            }
        }
    }
    place
}

/// Where two shortlists for the same question agree up to a place, the
/// first does not hold the better key length at that place.
proof fn lemma_shortlist_step(
    cipher: Seq<u8>,
    min_size: int,
    max_size: int,
    limit: nat,
    first: Seq<u32>,
    second: Seq<u32>,
    place: int,
)
    requires
        is_shortlist(cipher, min_size, max_size, limit, first),
        is_shortlist(cipher, min_size, max_size, limit, second),
        0 <= place < first.len(),
        forall|i: int| 0 <= i < place ==> first[i] == second[i],
    ensures
        !ranks_before(cipher, first[place] as int, second[place] as int),
{
    let size = first[place];
    assert(is_candidate(cipher.len(), min_size, max_size, size as int));
    if ranks_before(cipher, size as int, second[place] as int) {
        if second.contains(size) {
            let at = choose|at: int| 0 <= at < second.len() && second[at] == size;
            if at < place {
                assert(first[at] == size);
                assert(ranks_before(cipher, first[at] as int, first[place] as int));
            } else if at > place {
                assert(ranks_before(cipher, second[place] as int, second[at] as int));
            }
        } else {
            assert(ranks_before(cipher, second[place] as int, size as int));
        }
    }
}

/// Two shortlists for the same question agree on their first `upto` places.
proof fn lemma_shortlists_agree(
    cipher: Seq<u8>,
    min_size: int,
    max_size: int,
    limit: nat,
    first: Seq<u32>,
    second: Seq<u32>,
    upto: nat,
)
    requires
        is_shortlist(cipher, min_size, max_size, limit, first),
        is_shortlist(cipher, min_size, max_size, limit, second),
        upto <= first.len(),
    ensures
        forall|i: int| 0 <= i < upto ==> first[i] == second[i],
    decreases upto,
{
    if upto > 0 {
        let place = upto - 1;
        lemma_shortlists_agree(cipher, min_size, max_size, limit, first, second, place as nat);
        lemma_shortlist_step(cipher, min_size, max_size, limit, first, second, place);
        lemma_shortlist_step(cipher, min_size, max_size, limit, second, first, place);
    }
}

/// The ranking is deterministic: a ciphertext, a range of key lengths and a
/// limit have exactly one shortlist.
pub proof fn lemma_shortlist_unique(
    cipher: Seq<u8>,
    min_size: int,
    max_size: int,
    limit: nat,
    first: Seq<u32>,
    second: Seq<u32>,
)
    requires
        is_shortlist(cipher, min_size, max_size, limit, first),
        is_shortlist(cipher, min_size, max_size, limit, second),
    ensures
        first == second,
        first == shortlist(cipher, min_size, max_size, limit),
{
    lemma_shortlists_agree(cipher, min_size, max_size, limit, first, second, first.len());
    assert(first =~= second);
    let chosen = shortlist(cipher, min_size, max_size, limit);
    lemma_shortlists_agree(cipher, min_size, max_size, limit, first, chosen, first.len());
    assert(first =~= chosen);
}

/// Ranks the key lengths from `min_size` to `max_size` that leave four
/// whole blocks in `cipher`, and returns the best `limit` of them, best
/// first. Key lengths with fewer than four blocks are skipped. A range that
/// starts at zero is refused.
pub fn rank_key_sizes(cipher: &[u8], min_size: u32, max_size: u32, limit: usize) -> (ranked:
    Result<Vec<u32>, Error>)
    ensures
        match ranked {
            Ok(sizes) => min_size >= 1 && is_shortlist(
                cipher@,
                min_size as int,
                max_size as int,
                limit as nat,
                sizes@,
            ) && sizes@ == shortlist(cipher@, min_size as int, max_size as int, limit as nat),
            Err(error) => min_size == 0 && error is InvalidInput,
        },
{
    if min_size == 0 {
        return Err(Error::InvalidInput);
    }
    let quarter: usize = cipher.len() / 4;
    let top: u32 = if max_size as usize <= quarter {
        max_size
    } else {
        quarter as u32
    };
    let mut entries: Vec<KeyScore> = Vec::new();
    let mut next: u64 = min_size as u64;
    while next <= top as u64
        invariant
            1 <= min_size <= next,
            next <= top + 1 || next == min_size,
            top == if max_size <= cipher@.len() / 4 {
                max_size as int
            } else {
                cipher@.len() as int / 4
            },
            is_ranked(entries@),
            entries@.len() == if next <= top + 1 {
                next - min_size
            } else {
                0
            },
            forall|i: int|
                0 <= i < entries@.len() ==> min_size <= (#[trigger] entries@[i]).size < next
                    && entries@[i].distance == block_distance(cipher@, entries@[i].size as int),
            forall|size: int| min_size <= size < next ==> #[trigger] holds_size(entries@, size),
        decreases top + 1 - next,
    {
        let size: u32 = next as u32;
        let entry = calc_size_score(cipher, size);
        let ghost before = entries@;
        let place = insert_ranked(&mut entries, entry);
        proof {
            before.insert_ensures(place as int, entry);
            assert forall|other: int| min_size <= other < next + 1 implies #[trigger] holds_size(
                entries@,
                other,
            ) by {
                if other == size {
                    assert(entries@[place as int].size == other);
                } else {
                    assert(holds_size(before, other));
                    let at = choose|at: int| 0 <= at < before.len() && before[at].size == other;
                    if at < place {
                        assert(entries@[at].size == other);
                    } else {
                        assert(entries@[at + 1] == before[at]);
                    }
                }
            }
            assert forall|i: int| 0 <= i < entries@.len() implies min_size <= (
            #[trigger] entries@[i]).size < next + 1 && entries@[i].distance == block_distance(
                cipher@,
                entries@[i].size as int,
            ) by {
                if i < place {
                    assert(entries@[i] == before[i]);
                } else if i > place {
                    assert(entries@[i] == before[i - 1]);
                }
            }
        }
        next += 1;
    }
    let mut sizes: Vec<u32> = Vec::new();
    let mut i: usize = 0;
    while i < entries.len() && i < limit
        invariant
            i <= entries@.len(),
            i <= limit,
            sizes@.len() == i,
            forall|j: int| 0 <= j < i ==> #[trigger] sizes@[j] == entries@[j].size,
        decreases entries@.len() - i,
    {
        sizes.push(entries[i].size);
        i += 1;
    }
    proof {
        let found = sizes@;
        let low = min_size as int;
        let high = max_size as int;
        assert forall|size: u32, j: int|
            is_candidate(cipher@.len(), low, high, size as int) && !found.contains(size) && 0 <= j
                < found.len() implies #[trigger] ranks_before(
            cipher@,
            found[j] as int,
            size as int,
        ) by {
            assert(holds_size(entries@, size as int));
            let at = choose|at: int| 0 <= at < entries@.len() && entries@[at].size == size;
            if at < found.len() {
                assert(found[at] == size);
            }
            assert(entries@[j].precedes(entries@[at]));
        }
        assert forall|j: int, k: int| 0 <= j < k < found.len() implies #[trigger] ranks_before(
            cipher@,
            found[j] as int,
            found[k] as int,
        ) by {
            assert(entries@[j].precedes(entries@[k]));
        }
        assert(is_shortlist(cipher@, low, high, limit as nat, found));
        lemma_shortlist_unique(cipher@, low, high, limit as nat, found, found);
    }
    Ok(sizes)
}

/// The most likely key lengths for `cipher`, best first: at most
/// `DEFAULT_SHORTLIST` of the lengths from `DEFAULT_MIN_SIZE` to
/// `DEFAULT_MAX_SIZE`. The list is empty where `cipher` has fewer than four
/// bytes.
pub fn guess_key_size(cipher: &CipherText) -> (sizes: Vec<u32>)
    ensures
        is_shortlist(
            cipher@,
            DEFAULT_MIN_SIZE as int,
            DEFAULT_MAX_SIZE as int,
            DEFAULT_SHORTLIST as nat,
            sizes@,
        ),
        sizes@ == default_shortlist(cipher@),
        cipher@.len() < 4 ==> sizes@.len() == 0,
{
    rank_key_sizes(
        cipher.as_slice(),
        DEFAULT_MIN_SIZE,
        DEFAULT_MAX_SIZE,
        DEFAULT_SHORTLIST,
    ).unwrap()
}

/// The shortlist that `guess_key_size` returns for `cipher`.
pub open spec fn default_shortlist(cipher: Seq<u8>) -> Seq<u32> {
    shortlist(cipher, DEFAULT_MIN_SIZE as int, DEFAULT_MAX_SIZE as int, DEFAULT_SHORTLIST as nat)
}

} // verus!
