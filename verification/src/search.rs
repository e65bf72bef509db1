//! Backtracking searcher: composes five words with pairwise disjoint remapped
//! masks, always extending at the lowest unset bit of the accumulated mask,
//! and resolves each complete selection back to words through the index
//! table. The top level runs one search per seed: a single pre-set bit that
//! marks one letter as consumed before any word is chosen.

use vstd::prelude::*;
use vstd::std_specs::bits::axiom_u32_trailing_ones;
use crate::bits::{
    lemma_disjoint_union5, lemma_contained_and_disjoint, lemma_disjoint_union_len,
    lemma_mask_and_disjoint, lemma_mask_or, lemma_mask_set_finite, lemma_mask_set_full,
    lemma_mask_single, lemma_or_disjoint, lemma_trailing_ones_le_len, mask_set,
};
use crate::filter::{filter_words, lemma_line_letters, line_letters, qualifies, word_has_source};
use crate::index::{
    build_index, bucketed, lemma_lowbit_unique, lowbit_is, mask_in_bucket, mask_in_table,
    remapped_set, BucketIndex,
};
use crate::letter::{lemma_letter_set_len, ZWord};
use crate::remap::{build_remap, lemma_rank_injective};
use vstd::set_lib::{lemma_int_range, lemma_len_subset, set_int_range};

verus! {

/// One reported result: five selected remapped masks, in selection order, and
/// the words they resolve to.
pub struct Solution {
    pub masks: [u32; 5],
    pub words: [ZWord; 5],
}

/// The table pairs mask `m` with word `w`.
pub open spec fn pair_in_table(table: Seq<(u32, ZWord)>, m: u32, w: ZWord) -> bool {
    exists|t: int| 0 <= t < table.len() && #[trigger] table[t] == (m, w)
}

/// All letters used by the solution's five words.
pub open spec fn solution_letters(s: Solution) -> Set<int> {
    s.words[0].letter_set().union(s.words[1].letter_set()).union(
        s.words[2].letter_set(),
    ).union(s.words[3].letter_set()).union(s.words[4].letter_set())
}

/// What every reported solution satisfies: the five masks are pairwise
/// disjoint five-bit masks whose union has exactly 25 bits, and the five
/// words spell five distinct letters each, share no letter, and together use
/// exactly 25 of the 26 letters.
pub open spec fn valid_solution(s: Solution) -> bool {
    &&& forall|i: int| 0 <= i < 5 ==> (#[trigger] s.words[i]).wf() && s.words[i].distinct()
    &&& forall|i: int, j: int| 0 <= i < j < 5 ==> s.masks[i] & s.masks[j] == 0
    &&& forall|i: int| 0 <= i < 5 ==> mask_set(#[trigger] s.masks[i]).len() == 5
    &&& mask_set(s.masks[0] | s.masks[1] | s.masks[2] | s.masks[3] | s.masks[4]).len() == 25
    &&& forall|i: int, j: int|
        0 <= i < j < 5 ==> s.words[i].letter_set().disjoint(s.words[j].letter_set())
    &&& solution_letters(s).len() == 25
}

/// Every (mask, word) pair of the solution stands in the table.
pub open spec fn solution_from(s: Solution, table: Seq<(u32, ZWord)>) -> bool {
    forall|i: int| 0 <= i < 5 ==> pair_in_table(table, s.masks[i], #[trigger] s.words[i])
}

impl Solution {
    /// The report line for this solution: the five words' lowercase
    /// spellings, in selection order, separated by single spaces.
    pub fn line(&self) -> (r: Vec<u8>)
        requires
            forall|i: int| 0 <= i < 5 ==> (#[trigger] self.words[i]).wf(),
        ensures
            r@ == self.words[0].spelled() + seq![32u8] + self.words[1].spelled() + seq![32u8]
                + self.words[2].spelled() + seq![32u8] + self.words[3].spelled() + seq![32u8]
                + self.words[4].spelled(),
    {
        let mut r = self.words[0].spelling();
        r.push(32);
        let mut s1 = self.words[1].spelling();
        r.append(&mut s1);
        r.push(32);
        let mut s2 = self.words[2].spelling();
        r.append(&mut s2);
        r.push(32);
        let mut s3 = self.words[3].spelling();
        r.append(&mut s3);
        r.push(32);
        let mut s4 = self.words[4].spelling();
        r.append(&mut s4);
        proof {
            assert(r@ =~= self.words[0].spelled() + seq![32u8] + self.words[1].spelled()
                + seq![32u8] + self.words[2].spelled() + seq![32u8] + self.words[3].spelled()
                + seq![32u8] + self.words[4].spelled());
        }
        r
    }
}

/// A way to finish the search from `used` after `depth` selections: a set of
/// 5 - depth further table masks, pairwise disjoint, each disjoint from
/// `used`, that together with `used` cover every bit position in [0, 26).
pub open spec fn valid_extension(idx: BucketIndex, used: u32, depth: int, ext: Set<u32>) -> bool {
    &&& ext.finite()
    &&& ext.len() == 5 - depth
    &&& forall|m: u32| #[trigger] ext.contains(m) ==> mask_in_table(idx.table@, m) && m & used == 0
    &&& forall|m1: u32, m2: u32|
        ext.contains(m1) && ext.contains(m2) && m1 != m2 ==> m1 & m2 == 0
    &&& forall|b: int|
        0 <= b < 26 && !(#[trigger] mask_set(used).contains(b)) ==> exists|m: u32|
            #[trigger] ext.contains(m) && mask_set(m).contains(b)
}

/// Solution `s` starts with `prefix` and fills the rest with masks of `ext`.
pub open spec fn solution_matches(s: Solution, prefix: Seq<u32>, ext: Set<u32>) -> bool {
    &&& forall|i: int| 0 <= i < prefix.len() ==> (#[trigger] s.masks[i]) == prefix[i]
    &&& forall|i: int| prefix.len() <= i < 5 ==> ext.contains(#[trigger] s.masks[i])
}

/// Some solution of `out` starts with `prefix` and fills the rest from `ext`.
pub open spec fn extension_reported(out: Seq<Solution>, prefix: Seq<u32>, ext: Set<u32>) -> bool {
    exists|k: int| 0 <= k < out.len() && solution_matches(#[trigger] out[k], prefix, ext)
}

/// Some member of `ext` appears among the first `p` masks of bucket `ti`.
pub open spec fn scanned(buckets: Seq<Vec<u32>>, ti: int, p: int, ext: Set<u32>) -> bool {
    exists|q: int, m: u32|
        0 <= q < p && #[trigger] ext.contains(m) && (#[trigger] buckets[ti]@[q]) == m
}

/// A reported extension stays reported as the output only grows.
proof fn lemma_reported_grows(
    out1: Seq<Solution>,
    out2: Seq<Solution>,
    prefix: Seq<u32>,
    ext: Set<u32>,
)
    requires
        extension_reported(out1, prefix, ext),
        out1.len() <= out2.len(),
        forall|k: int| 0 <= k < out1.len() ==> out2[k] == out1[k],
    ensures
        extension_reported(out2, prefix, ext),
{
    let k = choose|k: int| 0 <= k < out1.len() && solution_matches(#[trigger] out1[k], prefix, ext);
    assert(out2[k] == out1[k]);
    assert(solution_matches(out2[k], prefix, ext));
}

/// Resolves a selected mask back to its word through the table. The index
/// invariants guarantee the entry exists, so the lookup cannot fail.
fn lookup_word(table: &Vec<(u32, ZWord)>, m: u32) -> (w: ZWord)
    requires
        mask_in_table(table@, m),
    ensures
        pair_in_table(table@, m, w),
{
    let mut t: usize = 0;
    while t < table.len()
        invariant
            mask_in_table(table@, m),
            t <= table@.len(),
            forall|q: int| 0 <= q < t ==> (#[trigger] table@[q]).0 != m,
        decreases table@.len() - t,
    {
        if table[t].0 == m {
            let w = table[t].1;
            proof {
                assert(table@[t as int] == (m, w));
            }
            return w;
        }
        t += 1;
    }
    proof {
        let q = choose|q: int| 0 <= q < table@.len() && (#[trigger] table@[q]).0 == m;
        assert(false);
    }
    vstd::pervasive::unreached()
}

/// One step of the backtracking search. `used` accumulates the seed bit and
/// the bits of the `depth` masks selected so far; every complete extension to
/// five pairwise disjoint table masks is appended to `out`.
fn search_rec(
    idx: &BucketIndex,
    used: u32,
    seed_bit: Ghost<u32>,
    depth: usize,
    selected: &mut Vec<u32>,
    out: &mut Vec<Solution>,
)
    requires
        idx.wf(),
        depth <= 5,
        old(selected)@.len() == depth,
        mask_set(used).len() <= 1 + 5 * depth,
        seed_bit@ & used == seed_bit@,
        forall|i: int| 0 <= i < depth ==> (#[trigger] old(selected)@[i]) & used == old(selected)@[i],
        forall|i: int, j: int| 0 <= i < j < depth ==> old(selected)@[i] & old(selected)@[j] == 0,
        forall|i: int| 0 <= i < depth ==> (#[trigger] old(selected)@[i]) & seed_bit@ == 0,
        forall|i: int| 0 <= i < depth ==> mask_in_table(idx.table@, #[trigger] old(selected)@[i]),
    ensures
        final(selected)@ == old(selected)@,
        final(out)@.len() >= old(out)@.len(),
        forall|k: int| 0 <= k < old(out)@.len() ==> final(out)@[k] == old(out)@[k],
        forall|k: int|
            old(out)@.len() <= k < final(out)@.len() ==> valid_solution(#[trigger] final(out)@[k])
                && solution_from(final(out)@[k], idx.table@)
                && (forall|i: int| 0 <= i < 5 ==> (#[trigger] final(out)@[k].masks[i]) & seed_bit@
                == 0),
        forall|ext: Set<u32>|
            valid_extension(*idx, used, depth as int, ext) ==> #[trigger] extension_reported(
                final(out)@,
                old(selected)@,
                ext,
            ),
    decreases 5 - depth,
{
    if depth == 5 {
        let m0 = selected[0];
        let m1 = selected[1];
        let m2 = selected[2];
        let m3 = selected[3];
        let m4 = selected[4];
        let w0 = lookup_word(&idx.table, m0);
        let w1 = lookup_word(&idx.table, m1);
        let w2 = lookup_word(&idx.table, m2);
        let w3 = lookup_word(&idx.table, m3);
        let w4 = lookup_word(&idx.table, m4);
        let s = Solution { masks: [m0, m1, m2, m3, m4], words: [w0, w1, w2, w3, w4] };
        proof {
            lemma_solution_valid(s, *idx);
        }
        let ghost sel_old = selected@;
        out.push(s);
        proof {
            let k = out@.len() - 1;
            assert(out@[k] == s);
            assert(s.masks[0] == sel_old[0] && s.masks[1] == sel_old[1] && s.masks[2] == sel_old[2]
                && s.masks[3] == sel_old[3] && s.masks[4] == sel_old[4]);
            assert forall|ext: Set<u32>| valid_extension(*idx, used, depth as int, ext) implies
                #[trigger] extension_reported(out@, sel_old, ext) by {
                assert(solution_matches(s, sel_old, ext));
                assert(0 <= k < out@.len() && solution_matches(out@[k], sel_old, ext));
            }
        }
        return ;
    }
    proof {
        if used == 0xffff_ffffu32 {
            lemma_mask_set_full();
        }
        lemma_trailing_ones_le_len(used);
    }
    let t = used.trailing_ones();
    let ti = t as usize;
    let ghost sel0 = selected@;
    let ghost out0 = out@;
    let mut p: usize = 0;
    let blen = idx.buckets[ti].len();
    while p < blen
        invariant
            idx.wf(),
            depth < 5,
            ti < 26,
            blen == idx.buckets@[ti as int]@.len(),
            selected@ == sel0,
            sel0.len() == depth,
            mask_set(used).len() <= 1 + 5 * depth,
            seed_bit@ & used == seed_bit@,
            forall|i: int| 0 <= i < depth ==> (#[trigger] sel0[i]) & used == sel0[i],
            forall|i: int, j: int| 0 <= i < j < depth ==> sel0[i] & sel0[j] == 0,
            forall|i: int| 0 <= i < depth ==> (#[trigger] sel0[i]) & seed_bit@ == 0,
            forall|i: int| 0 <= i < depth ==> mask_in_table(idx.table@, #[trigger] sel0[i]),
            p <= blen,
            out@.len() >= out0.len(),
            forall|k: int| 0 <= k < out0.len() ==> out@[k] == out0[k],
            forall|k: int|
                out0.len() <= k < out@.len() ==> valid_solution(#[trigger] out@[k])
                    && solution_from(out@[k], idx.table@)
                    && (forall|i: int| 0 <= i < 5 ==> (#[trigger] out@[k].masks[i]) & seed_bit@
                    == 0),
            forall|ext: Set<u32>|
                valid_extension(*idx, used, depth as int, ext) && scanned(
                    idx.buckets@,
                    ti as int,
                    p as int,
                    ext,
                ) ==> #[trigger] extension_reported(out@, sel0, ext),
        decreases blen - p,
    {
        let bits = idx.buckets[ti][p];
        let ghost out_pre = out@;
        if used & bits == 0 {
            proof {
                assert(mask_in_table(idx.table@, bits));
                let q = choose|q: int|
                    0 <= q < idx.table@.len() && (#[trigger] idx.table@[q]).0 == bits;
                assert(mask_set(bits).len() == 5);
                lemma_mask_or(used, bits);
                lemma_mask_and_disjoint(used, bits);
                lemma_mask_set_finite(used);
                lemma_mask_set_finite(bits);
                lemma_disjoint_union_len(mask_set(used), mask_set(bits));
                assert forall|i: int| 0 <= i < depth implies {
                    &&& (#[trigger] sel0[i]) & (used | bits) == sel0[i]
                    &&& sel0[i] & bits == 0
                } by {
                    lemma_contained_and_disjoint(sel0[i], used, bits);
                }
                assert(bits & (used | bits) == bits) by (bit_vector);
                lemma_contained_and_disjoint(seed_bit@, used, bits);
            }
            selected.push(bits);
            search_rec(idx, used | bits, seed_bit, depth + 1, selected, out);
            selected.pop();
            proof {
                assert(selected@ =~= sel0);
                assert forall|ext: Set<u32>|
                    valid_extension(*idx, used, depth as int, ext) && scanned(
                        idx.buckets@,
                        ti as int,
                        p as int + 1,
                        ext,
                    ) implies #[trigger] extension_reported(out@, sel0, ext) by {
                    if scanned(idx.buckets@, ti as int, p as int, ext) {
                        lemma_reported_grows(out_pre, out@, sel0, ext);
                    } else {
                        let (q, m) = choose|q: int, m: u32|
                            0 <= q < p as int + 1 && #[trigger] ext.contains(m) && (
                            #[trigger] idx.buckets@[ti as int]@[q]) == m;
                        assert(q == p as int);
                        assert(m == bits);
                        let ext2 = ext.remove(bits);
                        assert forall|mm: u32| #[trigger] ext2.contains(mm) implies mask_in_table(
                            idx.table@,
                            mm,
                        ) && mm & (used | bits) == 0 by {
                            assert(ext.contains(mm));
                            assert(mm & used == 0 && mm & bits == 0);
                            lemma_or_disjoint(mm, used, bits);
                        }
                        assert forall|m1: u32, m2: u32|
                            ext2.contains(m1) && ext2.contains(m2) && m1 != m2 implies m1 & m2
                            == 0 by {
                            assert(ext.contains(m1) && ext.contains(m2));
                        }
                        lemma_mask_or(used, bits);
                        assert forall|b: int|
                            0 <= b < 26 && !(#[trigger] mask_set(used | bits).contains(b))
                            implies exists|mm: u32|
                            #[trigger] ext2.contains(mm) && mask_set(mm).contains(b) by {
                            assert(!mask_set(used).contains(b));
                            let mm = choose|mm: u32|
                                #[trigger] ext.contains(mm) && mask_set(mm).contains(b);
                            assert(mm != bits);
                            assert(ext2.contains(mm) && mask_set(mm).contains(b));
                        }
                        assert(valid_extension(*idx, used | bits, depth as int + 1, ext2));
                        assert(extension_reported(out@, sel0.push(bits), ext2));
                        let k = choose|k: int|
                            0 <= k < out@.len() && solution_matches(
                                #[trigger] out@[k],
                                sel0.push(bits),
                                ext2,
                            );
                        let sk = out@[k];
                        assert forall|i: int| 0 <= i < sel0.len() implies (#[trigger] sk.masks[i])
                            == sel0[i] by {
                            assert(out@[k].masks[i] == sel0.push(bits)[i]);
                        }
                        assert forall|i: int| sel0.len() <= i < 5 implies ext.contains(
                            #[trigger] sk.masks[i],
                        ) by {
                            if i == sel0.len() {
                                assert(sk.masks[i] == sel0.push(bits)[i]);
                                assert(sk.masks[i] == bits);
                            } else {
                                assert(ext2.contains(sk.masks[i]));
                            }
                        }
                        assert(solution_matches(sk, sel0, ext));
                        assert(0 <= k < out@.len() && solution_matches(out@[k], sel0, ext));
                    }
                }
            }
        } else {
            proof {
                assert forall|ext: Set<u32>|
                    valid_extension(*idx, used, depth as int, ext) && scanned(
                        idx.buckets@,
                        ti as int,
                        p as int + 1,
                        ext,
                    ) implies #[trigger] extension_reported(out@, sel0, ext) by {
                    if !scanned(idx.buckets@, ti as int, p as int, ext) {
                        let (q, m) = choose|q: int, m: u32|
                            0 <= q < p as int + 1 && #[trigger] ext.contains(m) && (
                            #[trigger] idx.buckets@[ti as int]@[q]) == m;
                        assert(q == p as int);
                        assert(m == bits);
                        assert(m & used == 0);
                        assert(used & bits == bits & used) by (bit_vector);
                    }
                }
            }
        }
        p += 1;
    }
    proof {
        axiom_u32_trailing_ones(used);
        assert((ti as int) as u32 == t);
        assert forall|ext: Set<u32>| valid_extension(*idx, used, depth as int, ext) implies
            #[trigger] extension_reported(out@, sel0, ext) by {
            assert((used >> t) & 1u32 == 0u32);
            assert(!mask_set(used).contains(ti as int));
            let m = choose|m: u32| #[trigger] ext.contains(m) && mask_set(m).contains(ti as int);
            assert(m & used == 0);
            lemma_mask_and_disjoint(m, used);
            assert forall|b2: int| 0 <= b2 < ti as int implies !mask_set(m).contains(b2) by {
                let bu = b2 as u32;
                assert((used >> bu) & 1u32 == 1u32);
                assert(mask_set(used).contains(b2));
            }
            assert(lowbit_is(m, ti as int));
            assert(mask_in_table(idx.table@, m));
            let tq = choose|tq: int|
                0 <= tq < idx.table@.len() && (#[trigger] idx.table@[tq]).0 == m;
            assert(bucketed(idx.buckets@, idx.table@[tq].0));
            let j2 = choose|j2: int|
                0 <= j2 < 26 && lowbit_is(m, j2) && mask_in_bucket(idx.buckets@, j2, m);
            lemma_lowbit_unique(m, j2, ti as int);
            let q = choose|q: int|
                0 <= q < idx.buckets@[ti as int]@.len() && (#[trigger] idx.buckets@[ti as int]@[q])
                    == m;
            assert(0 <= q < blen as int && ext.contains(m) && idx.buckets@[ti as int]@[q] == m);
            assert(scanned(idx.buckets@, ti as int, blen as int, ext));
        }
    }
}

/// Five qualifying input lines, in increasing order, no two of which share a
/// letter: the raw material of one solution.
pub open spec fn disjoint_quintuple(
    lines: Seq<Vec<u8>>,
    a: int,
    b: int,
    c: int,
    d: int,
    e: int,
) -> bool {
    &&& 0 <= a < b < c < d < e < lines.len()
    &&& qualifies(lines[a]@) && qualifies(lines[b]@) && qualifies(lines[c]@) && qualifies(
        lines[d]@,
    ) && qualifies(lines[e]@)
    &&& line_letters(lines[a]@).disjoint(line_letters(lines[b]@))
    &&& line_letters(lines[a]@).disjoint(line_letters(lines[c]@))
    &&& line_letters(lines[a]@).disjoint(line_letters(lines[d]@))
    &&& line_letters(lines[a]@).disjoint(line_letters(lines[e]@))
    &&& line_letters(lines[b]@).disjoint(line_letters(lines[c]@))
    &&& line_letters(lines[b]@).disjoint(line_letters(lines[d]@))
    &&& line_letters(lines[b]@).disjoint(line_letters(lines[e]@))
    &&& line_letters(lines[c]@).disjoint(line_letters(lines[d]@))
    &&& line_letters(lines[c]@).disjoint(line_letters(lines[e]@))
    &&& line_letters(lines[d]@).disjoint(line_letters(lines[e]@))
}

/// The 25 letters the five lines use together.
pub open spec fn quintuple_letters(
    lines: Seq<Vec<u8>>,
    a: int,
    b: int,
    c: int,
    d: int,
    e: int,
) -> Set<int> {
    line_letters(lines[a]@).union(line_letters(lines[b]@)).union(line_letters(lines[c]@)).union(
        line_letters(lines[d]@),
    ).union(line_letters(lines[e]@))
}

/// The one letter the five lines leave unused.
pub open spec fn missing_letter(lines: Seq<Vec<u8>>, a: int, b: int, c: int, d: int, e: int) -> int {
    choose|l: int| 0 <= l < 26 && !quintuple_letters(lines, a, b, c, d, e).contains(l)
}

/// A disjoint quintuple uses 25 letters; exactly one letter of the alphabet,
/// the missing letter, is unused.
pub proof fn lemma_missing_letter(lines: Seq<Vec<u8>>, a: int, b: int, c: int, d: int, e: int)
    requires
        disjoint_quintuple(lines, a, b, c, d, e),
    ensures
        ({
            let u = quintuple_letters(lines, a, b, c, d, e);
            let lam = missing_letter(lines, a, b, c, d, e);
            &&& u.finite()
            &&& u.len() == 25
            &&& 0 <= lam < 26
            &&& !u.contains(lam)
            &&& forall|l: int| 0 <= l < 26 && l != lam ==> u.contains(l)
        }),
{
    let u = quintuple_letters(lines, a, b, c, d, e);
    let la = line_letters(lines[a]@);
    let lb = line_letters(lines[b]@);
    let lc = line_letters(lines[c]@);
    let ld = line_letters(lines[d]@);
    let le = line_letters(lines[e]@);
    lemma_line_letters(lines[a]@);
    lemma_line_letters(lines[b]@);
    lemma_line_letters(lines[c]@);
    lemma_line_letters(lines[d]@);
    lemma_line_letters(lines[e]@);
    lemma_disjoint_union5(la, lb, lc, ld, le);
    lemma_int_range(0, 26);
    assert(u.subset_of(set_int_range(0, 26)));
    if forall|l: int| 0 <= l < 26 ==> #[trigger] u.contains(l) {
        assert(set_int_range(0, 26).subset_of(u));
        lemma_len_subset(set_int_range(0, 26), u);
    }
    let lam = missing_letter(lines, a, b, c, d, e);
    assert(0 <= lam < 26 && !u.contains(lam));
    assert forall|l: int| 0 <= l < 26 && l != lam implies u.contains(l) by {
        if !u.contains(l) {
            let u2 = u.insert(lam).insert(l);
            assert(u2.subset_of(set_int_range(0, 26)));
            lemma_len_subset(u2, set_int_range(0, 26));
        }
    }
}

/// A complete selection of five pairwise disjoint table masks, resolved to
/// its words, is a valid solution: the masks carry five bits each and unite
/// to 25 bits, and the words share no letter and together use 25 letters.
proof fn lemma_solution_valid(s: Solution, idx: BucketIndex)
    requires
        idx.wf(),
        forall|i: int, j: int| 0 <= i < j < 5 ==> s.masks[i] & s.masks[j] == 0,
        forall|i: int| 0 <= i < 5 ==> pair_in_table(idx.table@, s.masks[i], #[trigger] s.words[i]),
    ensures
        valid_solution(s),
        solution_from(s, idx.table@),
{
    let rank = idx.rank@;
    assert forall|i: int| 0 <= i < 5 implies {
        &&& (#[trigger] s.words[i]).wf()
        &&& s.words[i].distinct()
        &&& mask_set(s.masks[i]).len() == 5
        &&& mask_set(s.masks[i]) == remapped_set(s.words[i], rank)
        &&& s.words[i].letter_set().finite()
        &&& s.words[i].letter_set().len() == 5
    } by {
        let t = choose|t: int|
            0 <= t < idx.table@.len() && #[trigger] idx.table@[t] == (s.masks[i], s.words[i]);
        lemma_letter_set_len(s.words[i]);
    }
    assert forall|i: int, j: int| 0 <= i < j < 5 implies s.words[i].letter_set().disjoint(
        s.words[j].letter_set(),
    ) by {
        lemma_mask_and_disjoint(s.masks[i], s.masks[j]);
        let wj = s.words[j];
        assert forall|l: int| s.words[i].letter_set().contains(l) implies !wj.letter_set().contains(
            l,
        ) by {
            assert(remapped_set(s.words[i], rank).contains(rank[l]));
            if s.words[j].letter_set().contains(l) {
                assert(remapped_set(s.words[j], rank).contains(rank[l]));
            }
        }
    }
    {
        let l0 = s.words[0].letter_set();
        let l1 = s.words[1].letter_set();
        let l2 = s.words[2].letter_set();
        let l3 = s.words[3].letter_set();
        let l4 = s.words[4].letter_set();
        lemma_disjoint_union5(l0, l1, l2, l3, l4);
    }
    {
        let m0 = s.masks[0];
        let m1 = s.masks[1];
        let m2 = s.masks[2];
        let m3 = s.masks[3];
        let m4 = s.masks[4];
        lemma_mask_set_finite(m0);
        lemma_mask_set_finite(m1);
        lemma_mask_set_finite(m2);
        lemma_mask_set_finite(m3);
        lemma_mask_set_finite(m4);
        lemma_mask_and_disjoint(m0, m1);
        lemma_mask_and_disjoint(m0, m2);
        lemma_mask_and_disjoint(m0, m3);
        lemma_mask_and_disjoint(m0, m4);
        lemma_mask_and_disjoint(m1, m2);
        lemma_mask_and_disjoint(m1, m3);
        lemma_mask_and_disjoint(m1, m4);
        lemma_mask_and_disjoint(m2, m3);
        lemma_mask_and_disjoint(m2, m4);
        lemma_mask_and_disjoint(m3, m4);
        lemma_mask_or(m0, m1);
        lemma_mask_or(m0 | m1, m2);
        lemma_mask_or(m0 | m1 | m2, m3);
        lemma_mask_or(m0 | m1 | m2 | m3, m4);
        lemma_disjoint_union5(
            mask_set(m0),
            mask_set(m1),
            mask_set(m2),
            mask_set(m3),
            mask_set(m4),
        );
        assert(mask_set(m0 | m1 | m2 | m3 | m4) =~= mask_set(m0).union(mask_set(m1)).union(
            mask_set(m2),
        ).union(mask_set(m3)).union(mask_set(m4)));
    }
}

/// Runs one seed's search: bit `seed` is marked consumed before any word is
/// selected, so the seed names the single letter the eventual 25-letter
/// solution leaves unused (seed 26 pre-sets a bit above all word bits).
/// Every reported solution is valid and resolves through the index table.
pub fn search_seed(idx: &BucketIndex, seed: usize) -> (out: Vec<Solution>)
    requires
        idx.wf(),
        seed < 27,
    ensures
        forall|k: int|
            0 <= k < out@.len() ==> valid_solution(#[trigger] out@[k]) && solution_from(
                out@[k],
                idx.table@,
            ),
        // no reported word touches the seed's pre-set bit
        forall|k: int, i: int|
            0 <= k < out@.len() && 0 <= i < 5 ==> (#[trigger] out@[k].masks[i]) & (1u32 << (
            seed as u32)) == 0,
        // every set of five pairwise disjoint table masks that, with the seed
        // bit, covers all 26 positions is reported
        forall|ext: Set<u32>|
            valid_extension(*idx, 1u32 << (seed as u32), 0, ext) ==> #[trigger] extension_reported(
                out@,
                Seq::<u32>::empty(),
                ext,
            ),
{
    let used = 1u32 << (seed as u32);
    proof {
        lemma_mask_single(seed as u32);
        assert(mask_set(used).len() <= 1);
        assert(used & used == used) by (bit_vector);
    }
    let mut selected: Vec<u32> = Vec::new();
    let ghost sel_init = selected@;
    let mut out: Vec<Solution> = Vec::new();
    search_rec(idx, used, Ghost(used), 0, &mut selected, &mut out);
    proof {
        assert(sel_init == Seq::<u32>::empty());
        assert forall|ext: Set<u32>| valid_extension(*idx, used, 0, ext) implies
            #[trigger] extension_reported(out@, Seq::<u32>::empty(), ext) by {
            assert(extension_reported(out@, sel_init, ext));
        }
    }
    out
}

/// The full pipeline: filter the raw lines, analyze frequencies, remap bits,
/// build the bucket index, and run every seed's search in turn. Every
/// reported solution is five words of five distinct letters each, letterwise
/// pairwise disjoint, together using exactly 25 of the 26 letters, and every
/// word of every solution spells some qualifying input line.
pub fn solve(lines: &Vec<Vec<u8>>) -> (out: Vec<Solution>)
    requires
        lines@.len() < 0xffff_ffff_ffff_ffff,
    ensures
        forall|k: int| 0 <= k < out@.len() ==> valid_solution(#[trigger] out@[k]),
        forall|k: int, i: int|
            0 <= k < out@.len() && 0 <= i < 5 ==> word_has_source(
                #[trigger] out@[k].words[i],
                lines@,
            ),
{
    let cands = filter_words(lines);
    let lut = build_remap(&cands.freq);
    proof {
        assert forall|a: int, b: int| 0 <= a < b < 26 implies lut@[a].1 != lut@[b].1 by {
            lemma_rank_injective(cands.freq@, a, b);
        }
    }
    let (idx, rmasks) = build_index(&cands, &lut);
    proof {
        assert forall|t: int| 0 <= t < idx.table@.len() implies (#[trigger] idx.table@[t]).1
            == cands.words@[t] by {
            assert(mask_set(rmasks@[t]) == remapped_set(cands.words@[t], idx.rank@));
            assert(idx.table@[t] == (rmasks@[t], cands.words@[t]));
        }
    }
    let mut out: Vec<Solution> = Vec::new();
    let mut seed: usize = 0;
    while seed < 27
        invariant
            idx.wf(),
            cands.wf(),
            idx.table@.len() == cands.words@.len(),
            forall|t: int|
                0 <= t < idx.table@.len() ==> (#[trigger] idx.table@[t]).1 == cands.words@[t],
            forall|i: int|
                0 <= i < cands.words@.len() ==> #[trigger] word_has_source(
                    cands.words@[i],
                    lines@,
                ),
            seed <= 27,
            forall|k: int| 0 <= k < out@.len() ==> valid_solution(#[trigger] out@[k]),
            forall|k: int, i: int|
                0 <= k < out@.len() && 0 <= i < 5 ==> word_has_source(
                    #[trigger] out@[k].words[i],
                    lines@,
                ),
        decreases 27 - seed,
    {
        let ghost out_before = out@;
        let mut part = search_seed(&idx, seed);
        let ghost part_g = part@;
        out.append(&mut part);
        proof {
            assert forall|k: int, i: int|
                0 <= k < out@.len() && 0 <= i < 5 implies word_has_source(
                #[trigger] out@[k].words[i],
                lines@,
            ) by {
                if k >= out_before.len() {
                    let s = out@[k];
                    assert(s == part_g[k - out_before.len()]);
                    assert(solution_from(s, idx.table@));
                    let t = choose|t: int|
                        0 <= t < idx.table@.len() && #[trigger] idx.table@[t] == (
                        s.masks[i],
                        s.words[i],
                        );
                    assert(s.words[i] == cands.words@[t]);
                }
            }
        }
        seed += 1;
    }
    out
}

} // verus!
