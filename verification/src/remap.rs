//! Frequency analyzer and bit remapper: orders the 26 letters by ascending
//! occurrence count and assigns each letter a new bit position, the least
//! frequent letter receiving bit 0. The assignment is a bijection on [0, 26).
//!
//! A letter's new position is its rank under the strict order "smaller count
//! first, ties broken by letter index".

use vstd::prelude::*;

verus! {

/// Strict total order on letters: ascending count, ties broken by index.
pub open spec fn key_lt(counts: Seq<u64>, a: int, b: int) -> bool {
    counts[a] < counts[b] || (counts[a] == counts[b] && a < b)
}

/// How many letters in [0, j) come strictly before letter `l` in the order.
pub open spec fn rank_upto(counts: Seq<u64>, l: int, j: int) -> nat
    decreases j,
{
    if j <= 0 {
        0
    } else {
        rank_upto(counts, l, j - 1) + if key_lt(counts, j - 1, l) {
            1nat
        } else {
            0nat
        }
    }
}

/// The bit position assigned to letter `l`: its rank in the frequency order.
pub open spec fn rank_of(counts: Seq<u64>, l: int) -> nat {
    rank_upto(counts, l, 26)
}

/// A rank over [0, j) never exceeds j, and never counts `l` itself.
pub proof fn lemma_rank_upto_bound(counts: Seq<u64>, l: int, j: int)
    requires
        0 <= j,
    ensures
        rank_upto(counts, l, j) <= j,
        0 <= l < j ==> rank_upto(counts, l, j) < j,
    decreases j,
{
    if j > 0 {
        lemma_rank_upto_bound(counts, l, j - 1);
    }
}

/// Ranks respect the order strictly: an earlier letter has a smaller rank.
pub proof fn lemma_rank_upto_mono(counts: Seq<u64>, a: int, b: int, j: int)
    requires
        key_lt(counts, a, b),
        0 <= j,
    ensures
        rank_upto(counts, b, j) >= rank_upto(counts, a, j) + if 0 <= a < j {
            1int
        } else {
            0int
        },
    decreases j,
{
    if j > 0 {
        lemma_rank_upto_mono(counts, a, b, j - 1);
    }
}

/// Distinct letters receive distinct ranks: the remap is injective, hence a
/// bijection of the 26 positions.
pub proof fn lemma_rank_injective(counts: Seq<u64>, a: int, b: int)
    requires
        0 <= a < 26,
        0 <= b < 26,
        a != b,
    ensures
        rank_of(counts, a) != rank_of(counts, b),
{
    if key_lt(counts, a, b) {
        lemma_rank_upto_mono(counts, a, b, 26);
    } else {
        assert(key_lt(counts, b, a));
        lemma_rank_upto_mono(counts, b, a, 26);
    }
}

/// The letter of minimal key among [0, j).
pub open spec fn min_letter_upto(counts: Seq<u64>, j: int) -> int
    decreases j,
{
    if j <= 1 {
        0
    } else {
        let m = min_letter_upto(counts, j - 1);
        if key_lt(counts, j - 1, m) {
            j - 1
        } else {
            m
        }
    }
}

/// The minimal-key letter is a letter, and nothing comes before it.
pub proof fn lemma_min_letter(counts: Seq<u64>, j: int)
    requires
        1 <= j,
    ensures
        0 <= min_letter_upto(counts, j) < j,
        forall|x: int| 0 <= x < j ==> !key_lt(counts, x, min_letter_upto(counts, j)),
    decreases j,
{
    if j > 1 {
        lemma_min_letter(counts, j - 1);
        let m = min_letter_upto(counts, j - 1);
        if key_lt(counts, j - 1, m) {
            assert forall|x: int| 0 <= x < j && #[trigger] counts[x] == counts[x] implies !key_lt(
                counts,
                x,
                j - 1,
            ) by {
                if 0 <= x < j - 1 && key_lt(counts, x, j - 1) {
                    assert(key_lt(counts, x, m));
                }
            }
        }
    }
}

/// The least-frequent letter receives bit position 0, and its count is
/// minimal among all letters.
pub proof fn lemma_least_gets_zero(counts: Seq<u64>)
    requires
        counts.len() == 26,
    ensures
        ({
            let l = min_letter_upto(counts, 26);
            &&& 0 <= l < 26
            &&& rank_of(counts, l) == 0
            &&& forall|x: int| 0 <= x < 26 ==> counts[x] >= counts[l]
        }),
{
    let l = min_letter_upto(counts, 26);
    lemma_min_letter(counts, 26);
    lemma_rank_zero_upto(counts, l, 26);
    assert(rank_of(counts, l) == 0);
    assert forall|x: int| 0 <= x < 26 implies counts[x] >= counts[l] by {
        assert(!key_lt(counts, x, l));
    }
}

/// A letter preceded by nothing in [0, j) has rank 0 over [0, j).
proof fn lemma_rank_zero_upto(counts: Seq<u64>, l: int, j: int)
    requires
        0 <= j,
        forall|x: int| 0 <= x < j ==> !key_lt(counts, x, l),
    ensures
        rank_upto(counts, l, j) == 0,
    decreases j,
{
    if j > 0 {
        lemma_rank_zero_upto(counts, l, j - 1);
    }
}

/// Builds the remap table from the 26 frequency counts: entry `l` holds the
/// new bit value and new bit position of letter `l`. Positions are exactly
/// the ranks in the ascending-frequency order, so they are 26 distinct values
/// in [0, 26), and the least frequent letter gets position 0.
pub fn build_remap(counts: &Vec<u64>) -> (lut: Vec<(u32, usize)>)
    requires
        counts@.len() == 26,
    ensures
        lut@.len() == 26,
        forall|l: int|
            0 <= l < 26 ==> {
                &&& (#[trigger] lut@[l]).1 == rank_of(counts@, l)
                &&& lut@[l].1 < 26
                &&& lut@[l].0 == 1u32 << (lut@[l].1 as u32)
            },
{
    let mut lut: Vec<(u32, usize)> = Vec::new();
    let mut l: usize = 0;
    while l < 26
        invariant
            counts@.len() == 26,
            l <= 26,
            lut@.len() == l,
            forall|ll: int|
                0 <= ll < l ==> {
                    &&& (#[trigger] lut@[ll]).1 == rank_of(counts@, ll)
                    &&& lut@[ll].1 < 26
                    &&& lut@[ll].0 == 1u32 << (lut@[ll].1 as u32)
                },
        decreases 26 - l,
    {
        let mut c: usize = 0;
        let mut j: usize = 0;
        while j < 26
            invariant
                counts@.len() == 26,
                l < 26,
                j <= 26,
                c == rank_upto(counts@, l as int, j as int),
                c <= j,
            decreases 26 - j,
        {
            let cj = counts[j];
            let cl = counts[l];
            if cj < cl || (cj == cl && j < l) {
                c += 1;
            }
            j += 1;
        }
        proof {
            lemma_rank_upto_bound(counts@, l as int, 26);
        }
        lut.push((1u32 << c, c));
        l += 1;
    }
    lut
}

} // verus!
