//! Bucket index: every retained word's bitmask is recomputed under the remap,
//! grouped into the bucket of its lowest set bit, and recorded in the
//! mask-to-word table that resolves final results.

use vstd::prelude::*;
use crate::bits::{lemma_distinct5_len, lemma_mask_or, lemma_mask_single, mask_set};
use vstd::set_lib::{lemma_int_range, lemma_len_subset, lemma_subset_equality, set_int_range};
use crate::filter::Candidates;
use crate::letter::ZWord;

verus! {

/// The set of remapped bit positions of the word's five letters.
pub open spec fn remapped_set(w: ZWord, rank: Seq<int>) -> Set<int> {
    set![
        rank[w.letter(0)],
        rank[w.letter(1)],
        rank[w.letter(2)],
        rank[w.letter(3)],
        rank[w.letter(4)],
    ]
}

/// Bit `j` is the lowest set bit of `m`.
pub open spec fn lowbit_is(m: u32, j: int) -> bool {
    &&& 0 <= j < 26
    &&& mask_set(m).contains(j)
    &&& forall|i: int| 0 <= i < j ==> !mask_set(m).contains(i)
}

/// A mask can be the lowest-bit member of at most one bucket.
pub proof fn lemma_lowbit_unique(m: u32, j1: int, j2: int)
    requires
        lowbit_is(m, j1),
        lowbit_is(m, j2),
    ensures
        j1 == j2,
{
}

/// The table holds an entry whose mask is `m`.
pub open spec fn mask_in_table(table: Seq<(u32, ZWord)>, m: u32) -> bool {
    exists|t: int| 0 <= t < table.len() && (#[trigger] table[t]).0 == m
}

/// Bucket `j` holds the mask `m`.
pub open spec fn mask_in_bucket(buckets: Seq<Vec<u32>>, j: int, m: u32) -> bool {
    exists|p: int| 0 <= p < buckets[j]@.len() && (#[trigger] buckets[j]@[p]) == m
}

/// The mask `m` sits in the bucket of its lowest set bit.
pub open spec fn bucketed(buckets: Seq<Vec<u32>>, m: u32) -> bool {
    exists|j: int| 0 <= j < 26 && lowbit_is(m, j) && mask_in_bucket(buckets, j, m)
}

/// The remap assignment: 26 positions, each in [0, 26), no two alike.
pub open spec fn rank_wf(rank: Seq<int>) -> bool {
    &&& rank.len() == 26
    &&& forall|l: int| 0 <= l < 26 ==> 0 <= #[trigger] rank[l] < 26
    &&& forall|a: int, b: int| 0 <= a < b < 26 ==> rank[a] != rank[b]
}

/// The set of positions assigned to the letters in [0, j).
pub open spec fn rank_image(rank: Seq<int>, j: int) -> Set<int>
    decreases j,
{
    if j <= 0 {
        Set::empty()
    } else {
        rank_image(rank, j - 1).insert(rank[j - 1])
    }
}

/// Membership in the image: exactly the positions of the first j letters.
proof fn lemma_rank_image_contains(rank: Seq<int>, j: int, p: int)
    requires
        0 <= j,
    ensures
        rank_image(rank, j).contains(p) <==> exists|l: int| 0 <= l < j && rank[l] == p,
    decreases j,
{
    if j > 0 {
        lemma_rank_image_contains(rank, j - 1, p);
    }
}

/// With distinct positions the image of [0, j) has exactly j elements.
proof fn lemma_rank_image_len(rank: Seq<int>, j: int)
    requires
        0 <= j <= 26,
        forall|a: int, b: int| 0 <= a < b < 26 ==> rank[a] != rank[b],
    ensures
        rank_image(rank, j).finite(),
        rank_image(rank, j).len() == j,
    decreases j,
{
    if j > 0 {
        lemma_rank_image_len(rank, j - 1);
        lemma_rank_image_contains(rank, j - 1, rank[j - 1]);
        assert(!rank_image(rank, j - 1).contains(rank[j - 1]));
    }
}

/// A well-formed remap is onto: every position in [0, 26) is some letter's.
pub proof fn lemma_rank_surjective(rank: Seq<int>, p: int)
    requires
        rank_wf(rank),
        0 <= p < 26,
    ensures
        exists|l: int| 0 <= l < 26 && #[trigger] rank[l] == p,
{
    lemma_rank_image_len(rank, 26);
    lemma_int_range(0, 26);
    assert forall|x: int| rank_image(rank, 26).contains(x) implies set_int_range(
        0,
        26,
    ).contains(x) by {
        lemma_rank_image_contains(rank, 26, x);
    }
    lemma_subset_equality(rank_image(rank, 26), set_int_range(0, 26));
    assert(rank_image(rank, 26).contains(p));
    lemma_rank_image_contains(rank, 26, p);
}

/// The bucket index, the mask-to-word table, and (as a ghost) the remap the
/// masks were computed under.
pub struct BucketIndex {
    pub buckets: Vec<Vec<u32>>,
    pub table: Vec<(u32, ZWord)>,
    pub rank: Ghost<Seq<int>>,
}

impl BucketIndex {
    /// Structural soundness: 26 buckets; each table entry pairs a remapped
    /// mask of exactly five bits with the word it encodes; each bucket member
    /// has that bucket's index as its lowest set bit and can be resolved
    /// through the table.
    pub open spec fn wf(self) -> bool {
        &&& self.buckets@.len() == 26
        &&& rank_wf(self.rank@)
        &&& forall|t: int|
            0 <= t < self.table@.len() ==> {
                &&& (#[trigger] self.table@[t]).1.wf()
                &&& self.table@[t].1.distinct()
                &&& mask_set(self.table@[t].0) == remapped_set(self.table@[t].1, self.rank@)
                &&& mask_set(self.table@[t].0).len() == 5
            }
        &&& forall|j: int, p: int|
            0 <= j < 26 && 0 <= p < self.buckets@[j]@.len() ==> {
                &&& lowbit_is(#[trigger] self.buckets@[j]@[p], j)
                &&& mask_in_table(self.table@, self.buckets@[j]@[p])
            }
        &&& forall|t: int|
            0 <= t < self.table@.len() ==> bucketed(self.buckets@, (#[trigger] self.table@[t]).0)
    }
}

/// Builds the bucket index from the filtered candidates and the remap table.
/// Besides a well-formed index, the build promises completeness: the ghost
/// result lists each word's remapped mask, whose bit set is exactly the
/// word's letters' remapped positions, and each such mask sits in the bucket
/// of its lowest set bit.
pub fn build_index(cands: &Candidates, lut: &Vec<(u32, usize)>) -> (r: (
    BucketIndex,
    Ghost<Seq<u32>>,
))
    requires
        cands.wf(),
        lut@.len() == 26,
        forall|l: int|
            0 <= l < 26 ==> {
                &&& (#[trigger] lut@[l]).1 < 26
                &&& lut@[l].0 == 1u32 << (lut@[l].1 as u32)
            },
        forall|a: int, b: int| 0 <= a < b < 26 ==> lut@[a].1 != lut@[b].1,
    ensures
        r.0.wf(),
        r.0.rank@.len() == 26,
        forall|l: int| 0 <= l < 26 ==> #[trigger] r.0.rank@[l] == lut@[l].1,
        r.1@.len() == cands.words@.len(),
        r.0.table@.len() == cands.words@.len(),
        forall|i: int|
            0 <= i < cands.words@.len() ==> {
                &&& mask_set(#[trigger] r.1@[i]) == remapped_set(cands.words@[i], r.0.rank@)
                &&& r.0.table@[i] == (r.1@[i], cands.words@[i])
                &&& exists|j: int|
                    0 <= j < 26 && lowbit_is(r.1@[i], j) && mask_in_bucket(
                        r.0.buckets@,
                        j,
                        r.1@[i],
                    )
            },
{
    let ghost rank: Seq<int> = Seq::new(26nat, |l: int| lut@[l].1 as int);
    let n = cands.words.len();
    let mut rmasks: Vec<u32> = Vec::new();
    let mut lows: Vec<usize> = Vec::new();
    let mut table: Vec<(u32, ZWord)> = Vec::new();
    let mut i: usize = 0;
    while i < n
        invariant
            cands.wf(),
            n == cands.words@.len(),
            lut@.len() == 26,
            forall|l: int|
                0 <= l < 26 ==> {
                    &&& (#[trigger] lut@[l]).1 < 26
                    &&& lut@[l].0 == 1u32 << (lut@[l].1 as u32)
                },
            forall|a: int, b: int| 0 <= a < b < 26 ==> lut@[a].1 != lut@[b].1,
            rank == Seq::new(26, |l: int| lut@[l].1 as int),
            i <= n,
            rmasks@.len() == i,
            lows@.len() == i,
            table@.len() == i,
            forall|x: int|
                0 <= x < i ==> {
                    &&& mask_set(#[trigger] rmasks@[x]) == remapped_set(cands.words@[x], rank)
                    &&& mask_set(rmasks@[x]).len() == 5
                    &&& lowbit_is(rmasks@[x], lows@[x] as int)
                    &&& table@[x] == (rmasks@[x], cands.words@[x])
                },
        decreases n - i,
    {
        let w = cands.words[i];
        proof {
            assert(cands.words@[i as int].wf());
            assert(w.0[0].wf() && w.0[1].wf() && w.0[2].wf() && w.0[3].wf() && w.0[4].wf());
        }
        let o0 = w.0[0].ord();
        let o1 = w.0[1].ord();
        let o2 = w.0[2].ord();
        let o3 = w.0[3].ord();
        let o4 = w.0[4].ord();
        let (k0, p0) = lut[o0];
        let (k1, p1) = lut[o1];
        let (k2, p2) = lut[o2];
        let (k3, p3) = lut[o3];
        let (k4, p4) = lut[o4];
        proof {
            lemma_mask_single(p0 as u32);
            lemma_mask_single(p1 as u32);
            lemma_mask_single(p2 as u32);
            lemma_mask_single(p3 as u32);
            lemma_mask_single(p4 as u32);
            lemma_mask_or(k0, k1);
            lemma_mask_or(k0 | k1, k2);
            lemma_mask_or(k0 | k1 | k2, k3);
            lemma_mask_or(k0 | k1 | k2 | k3, k4);
            lemma_distinct5_len(p0 as int, p1 as int, p2 as int, p3 as int, p4 as int);
        }
        let m = k0 | k1 | k2 | k3 | k4;
        let mut low = p0;
        if p1 < low {
            low = p1;
        }
        if p2 < low {
            low = p2;
        }
        if p3 < low {
            low = p3;
        }
        if p4 < low {
            low = p4;
        }
        proof {
            assert(mask_set(m) =~= remapped_set(w, rank));
            assert(mask_set(m) =~= set![p0 as int, p1 as int, p2 as int, p3 as int, p4 as int]);
            assert(mask_set(m).contains(low as int));
            assert forall|b: int| 0 <= b < low implies !mask_set(m).contains(b) by {
                assert(b != p0 && b != p1 && b != p2 && b != p3 && b != p4);
            }
        }
        rmasks.push(m);
        lows.push(low);
        table.push((m, w));
        i += 1;
    }
    let mut buckets: Vec<Vec<u32>> = Vec::new();
    let mut j: usize = 0;
    // ghost: the position of each word's mask inside its bucket, filled in as
    // the bucket for its low bit is built
    let ghost mut poss: Seq<int> = Seq::new(n as nat, |x: int| -1);
    while j < 26
        invariant
            n == cands.words@.len(),
            rmasks@.len() == n,
            lows@.len() == n,
            table@.len() == n,
            forall|x: int|
                0 <= x < n ==> {
                    &&& mask_set(#[trigger] rmasks@[x]) == remapped_set(cands.words@[x], rank)
                    &&& mask_set(rmasks@[x]).len() == 5
                    &&& lowbit_is(rmasks@[x], lows@[x] as int)
                    &&& table@[x] == (rmasks@[x], cands.words@[x])
                },
            j <= 26,
            buckets@.len() == j,
            poss.len() == n,
            forall|jj: int, p: int|
                0 <= jj < j && 0 <= p < buckets@[jj]@.len() ==> {
                    &&& lowbit_is(#[trigger] buckets@[jj]@[p], jj)
                    &&& mask_in_table(table@, buckets@[jj]@[p])
                },
            forall|x: int|
                0 <= x < n && lows@[x] < j ==> {
                    &&& 0 <= #[trigger] poss[x] < buckets@[lows@[x] as int]@.len()
                    &&& buckets@[lows@[x] as int]@[poss[x]] == rmasks@[x]
                },
        decreases 26 - j,
    {
        let mut bucket: Vec<u32> = Vec::new();
        let mut x: usize = 0;
        while x < n
            invariant
                n == cands.words@.len(),
                rmasks@.len() == n,
                lows@.len() == n,
                table@.len() == n,
                forall|y: int|
                    0 <= y < n ==> {
                        &&& mask_set(#[trigger] rmasks@[y]) == remapped_set(cands.words@[y], rank)
                        &&& mask_set(rmasks@[y]).len() == 5
                        &&& lowbit_is(rmasks@[y], lows@[y] as int)
                        &&& table@[y] == (rmasks@[y], cands.words@[y])
                    },
                j < 26,
                x <= n,
                poss.len() == n,
                forall|p: int|
                    0 <= p < bucket@.len() ==> {
                        &&& lowbit_is(#[trigger] bucket@[p], j as int)
                        &&& mask_in_table(table@, bucket@[p])
                    },
                forall|y: int|
                    0 <= y < x && lows@[y] == j ==> {
                        &&& 0 <= #[trigger] poss[y] < bucket@.len()
                        &&& bucket@[poss[y]] == rmasks@[y]
                    },
                forall|y: int|
                    0 <= y < n && lows@[y] < j ==> {
                        &&& 0 <= #[trigger] poss[y] < buckets@[lows@[y] as int]@.len()
                        &&& buckets@[lows@[y] as int]@[poss[y]] == rmasks@[y]
                    },
            decreases n - x,
        {
            if lows[x] == j {
                proof {
                    assert(table@[x as int].0 == rmasks@[x as int]);
                    assert(mask_in_table(table@, rmasks@[x as int]));
                    poss = poss.update(x as int, bucket@.len() as int);
                }
                bucket.push(rmasks[x]);
            }
            x += 1;
        }
        let ghost old_buckets = buckets@;
        buckets.push(bucket);
        proof {
            assert(buckets@ == old_buckets.push(bucket));
            assert forall|x: int| 0 <= x < n && lows@[x] < j + 1 implies {
                &&& 0 <= #[trigger] poss[x] < buckets@[lows@[x] as int]@.len()
                &&& buckets@[lows@[x] as int]@[poss[x]] == rmasks@[x]
            } by {
                if lows@[x] < j {
                    assert(buckets@[lows@[x] as int] == old_buckets[lows@[x] as int]);
                } else {
                    assert(buckets@[lows@[x] as int] == bucket);
                }
            }
        }
        j += 1;
    }
    let ghost gbuckets = buckets@;
    let ghost gtable = table@;
    let idx = BucketIndex { buckets, table, rank: Ghost(rank) };
    proof {
        assert(idx.buckets@ == gbuckets);
        assert(idx.table@ == gtable);
        assert(idx.rank@ == rank);
        assert forall|l: int| 0 <= l < 26 implies 0 <= #[trigger] rank[l] < 26 by {
            assert(lut@[l].1 < 26);
        }
        assert forall|a: int, b: int| 0 <= a < b < 26 implies rank[a] != rank[b] by {
            assert(lut@[a].1 != lut@[b].1);
        }
        assert(rank_wf(rank));
        assert forall|t: int| 0 <= t < idx.table@.len() implies {
            &&& (#[trigger] idx.table@[t]).1.wf()
            &&& idx.table@[t].1.distinct()
            &&& mask_set(idx.table@[t].0) == remapped_set(idx.table@[t].1, idx.rank@)
            &&& mask_set(idx.table@[t].0).len() == 5
        } by {
            assert(idx.table@[t] == (rmasks@[t], cands.words@[t]));
            assert(mask_set(rmasks@[t]) == remapped_set(cands.words@[t], rank));
            assert(cands.words@[t].wf());
        }
        assert forall|t2: int| 0 <= t2 < idx.table@.len() implies bucketed(
            idx.buckets@,
            (#[trigger] idx.table@[t2]).0,
        ) by {
            let jj = lows@[t2] as int;
            assert(idx.table@[t2].0 == rmasks@[t2]);
            assert(lowbit_is(rmasks@[t2], jj));
            assert(0 <= poss[t2] < gbuckets[jj]@.len());
            assert(gbuckets[jj]@[poss[t2]] == rmasks@[t2]);
            assert(0 <= poss[t2] < idx.buckets@[jj]@.len() && idx.buckets@[jj]@[poss[t2]]
                == rmasks@[t2]);
            assert(mask_in_bucket(idx.buckets@, jj, idx.table@[t2].0));
        }
        assert forall|x: int| 0 <= x < n implies exists|jj: int|
            0 <= jj < 26 && lowbit_is(#[trigger] rmasks@[x], jj) && mask_in_bucket(
                idx.buckets@,
                jj,
                rmasks@[x],
            ) by {
            let jj = lows@[x] as int;
            assert(lowbit_is(rmasks@[x], jj));
            assert(lows@[x] < 26);
            assert(0 <= poss[x] < gbuckets[jj]@.len());
            assert(gbuckets[jj]@[poss[x]] == rmasks@[x]);
            assert(0 <= poss[x] < idx.buckets@[jj]@.len() && idx.buckets@[jj]@[poss[x]]
                == rmasks@[x]);
            assert(mask_in_bucket(idx.buckets@, jj, rmasks@[x]));
        }
    }
    (idx, Ghost(rmasks@))
}

} // verus!
