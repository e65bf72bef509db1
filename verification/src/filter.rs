//! Word filter: parses raw dictionary lines into validated, deduplicated
//! candidate words, together with each word's natural bitmask and the
//! per-letter frequency counts across the retained words.

use vstd::prelude::*;
use crate::bits::{
    lemma_distinct5_len, lemma_mask_or, lemma_mask_set_injective, lemma_mask_single,
    lemma_mask_test, mask_set,
};
use vstd::set_lib::set_int_range;
use crate::letter::{is_letter_byte, lemma_letter_set_len, letter_index_of_byte, ZChar, ZWord};

verus! {

/// A raw line qualifies when it spells exactly five letters, none repeated.
pub open spec fn qualifies(line: Seq<u8>) -> bool {
    &&& line.len() == 5
    &&& forall|k: int| 0 <= k < 5 ==> is_letter_byte(#[trigger] line[k])
    &&& forall|i: int, j: int|
        0 <= i < j < 5 ==> letter_index_of_byte(line[i]) != letter_index_of_byte(line[j])
}

/// The set of letters a five-byte line spells.
pub open spec fn line_letters(line: Seq<u8>) -> Set<int> {
    set![
        letter_index_of_byte(line[0]),
        letter_index_of_byte(line[1]),
        letter_index_of_byte(line[2]),
        letter_index_of_byte(line[3]),
        letter_index_of_byte(line[4]),
    ]
}

/// A qualifying line spells five distinct letters of the alphabet.
pub proof fn lemma_line_letters(line: Seq<u8>)
    requires
        qualifies(line),
    ensures
        line_letters(line).finite(),
        line_letters(line).len() == 5,
        line_letters(line).subset_of(set_int_range(0, 26)),
{
    assert(is_letter_byte(line[0]) && is_letter_byte(line[1]) && is_letter_byte(line[2])
        && is_letter_byte(line[3]) && is_letter_byte(line[4]));
    lemma_distinct5_len(
        letter_index_of_byte(line[0]),
        letter_index_of_byte(line[1]),
        letter_index_of_byte(line[2]),
        letter_index_of_byte(line[3]),
        letter_index_of_byte(line[4]),
    );
}

/// The word `w` spells the line, letter for letter, case folded.
pub open spec fn spells(w: ZWord, line: Seq<u8>) -> bool {
    line.len() == 5 && forall|k: int| 0 <= k < 5 ==> w.letter(k) == letter_index_of_byte(line[k])
}

/// The word `w` was read off line `k` of `lines`, which qualifies.
pub open spec fn word_from_line(w: ZWord, lines: Seq<Vec<u8>>, k: int) -> bool {
    0 <= k < lines.len() && qualifies(lines[k]@) && spells(w, lines[k]@)
}

/// The word `w` was read off line `k` of `lines`, and no earlier qualifying
/// line spells the same letter set: `k` is the first-seen spelling's line.
pub open spec fn word_source_at(w: ZWord, lines: Seq<Vec<u8>>, k: int) -> bool {
    &&& word_from_line(w, lines, k)
    &&& forall|k2: int|
        0 <= k2 < k && qualifies(#[trigger] lines[k2]@) ==> line_letters(lines[k2]@)
            != w.letter_set()
}

/// The word `w` was read off the first qualifying line of `lines` that spells
/// its letter set.
pub open spec fn word_has_source(w: ZWord, lines: Seq<Vec<u8>>) -> bool {
    exists|k: int| word_source_at(w, lines, k)
}

/// How many words of `ws` contain the letter `l`.
pub open spec fn count_with_letter(ws: Seq<ZWord>, l: int) -> nat
    decreases ws.len(),
{
    if ws.len() == 0 {
        0
    } else {
        count_with_letter(ws.drop_last(), l) + if ws.last().letter_set().contains(l) {
            1nat
        } else {
            0nat
        }
    }
}

/// Appending a word raises the count of exactly its letters by one.
pub proof fn lemma_count_push(ws: Seq<ZWord>, w: ZWord, l: int)
    ensures
        count_with_letter(ws.push(w), l) == count_with_letter(ws, l) + if w.letter_set().contains(
            l,
        ) {
            1nat
        } else {
            0nat
        },
{
    assert(ws.push(w).drop_last() =~= ws);
    assert(ws.push(w).last() == w);
}

/// The count of a letter never exceeds the number of words.
pub proof fn lemma_count_le_len(ws: Seq<ZWord>, l: int)
    ensures
        count_with_letter(ws, l) <= ws.len(),
    decreases ws.len(),
{
    if ws.len() > 0 {
        lemma_count_le_len(ws.drop_last(), l);
    }
}

/// Whether `b` spells a letter.
pub fn is_letter(b: u8) -> (r: bool)
    ensures
        r == is_letter_byte(b),
{
    (b >= 97 && b <= 122) || (b >= 65 && b <= 90)
}

/// Parses one raw line. Returns the word and its natural mask when the line
/// qualifies: five letters, no letter repeated. Returns `None` otherwise.
pub fn parse_word(line: &Vec<u8>) -> (r: Option<(ZWord, u32)>)
    ensures
        r is Some <==> qualifies(line@),
        r matches Some(p) ==> {
            &&& p.0.wf()
            &&& p.0.distinct()
            &&& spells(p.0, line@)
            &&& mask_set(p.1) == p.0.letter_set()
            &&& mask_set(p.1).len() == 5
            &&& p.0.letter_set() == line_letters(line@)
        },
{
    if line.len() != 5 {
        return None;
    }
    let b0 = line[0];
    let b1 = line[1];
    let b2 = line[2];
    let b3 = line[3];
    let b4 = line[4];
    if !(is_letter(b0) && is_letter(b1) && is_letter(b2) && is_letter(b3) && is_letter(b4)) {
        return None;
    }
    let z0 = ZChar::from_byte(b0);
    let z1 = ZChar::from_byte(b1);
    let z2 = ZChar::from_byte(b2);
    let z3 = ZChar::from_byte(b3);
    let z4 = ZChar::from_byte(b4);
    proof {
        lemma_mask_single(z0.0 as u32);
        lemma_mask_single(z1.0 as u32);
        lemma_mask_single(z2.0 as u32);
        lemma_mask_single(z3.0 as u32);
        lemma_mask_single(z4.0 as u32);
    }
    let m0 = z0.mask();
    let mut m = m0;
    proof {
        lemma_mask_test(m, z1.0 as u32);
    }
    if m & z1.mask() != 0 {
        return None;
    }
    proof {
        lemma_mask_or(m, 1u32 << (z1.0 as u32));
    }
    m = m | z1.mask();
    proof {
        lemma_mask_test(m, z2.0 as u32);
    }
    if m & z2.mask() != 0 {
        return None;
    }
    proof {
        lemma_mask_or(m, 1u32 << (z2.0 as u32));
    }
    m = m | z2.mask();
    proof {
        lemma_mask_test(m, z3.0 as u32);
    }
    if m & z3.mask() != 0 {
        return None;
    }
    proof {
        lemma_mask_or(m, 1u32 << (z3.0 as u32));
    }
    m = m | z3.mask();
    proof {
        lemma_mask_test(m, z4.0 as u32);
    }
    if m & z4.mask() != 0 {
        return None;
    }
    proof {
        lemma_mask_or(m, 1u32 << (z4.0 as u32));
    }
    m = m | z4.mask();
    let w = ZWord([z0, z1, z2, z3, z4]);
    proof {
        assert(mask_set(m) =~= w.letter_set());
        assert(w.letter_set() =~= line_letters(line@));
        lemma_letter_set_len(w);
    }
    Some((w, m))
}

/// The filter's output: the retained words in first-seen order, each word's
/// natural mask at the same index, and the 26 per-letter frequency counts
/// over the retained words.
pub struct Candidates {
    pub words: Vec<ZWord>,
    pub masks: Vec<u32>,
    pub freq: Vec<u64>,
}

impl Candidates {
    /// Internal consistency: masks match words, no mask (letter set) appears
    /// twice, and the frequency table counts the retained words exactly.
    pub open spec fn wf(self) -> bool {
        &&& self.words@.len() == self.masks@.len()
        &&& self.freq@.len() == 26
        &&& forall|i: int|
            0 <= i < self.words@.len() ==> {
                &&& (#[trigger] self.words@[i]).wf()
                &&& self.words@[i].distinct()
                &&& mask_set(self.masks@[i]) == self.words@[i].letter_set()
                &&& mask_set(self.masks@[i]).len() == 5
            }
        &&& forall|i: int, j: int|
            0 <= i < j < self.masks@.len() ==> self.masks@[i] != self.masks@[j]
        &&& forall|l: int|
            0 <= l < 26 ==> self.freq@[l] == count_with_letter(self.words@, l)
    }
}

/// Anagrams collapse to one representative: no two retained words spell the
/// same letter set.
pub proof fn lemma_one_representative(c: Candidates, i: int, j: int)
    requires
        c.wf(),
        0 <= i < j < c.words@.len(),
    ensures
        c.words@[i].letter_set() != c.words@[j].letter_set(),
{
    if c.words@[i].letter_set() == c.words@[j].letter_set() {
        lemma_mask_set_injective(c.masks@[i], c.masks@[j]);
    }
}

/// Does `v` hold the mask `m`?
fn contains_mask(v: &Vec<u32>, m: u32) -> (r: bool)
    ensures
        r == exists|i: int| 0 <= i < v@.len() && v@[i] == m,
{
    let mut i: usize = 0;
    while i < v.len()
        invariant
            i <= v@.len(),
            forall|j: int| 0 <= j < i ==> v@[j] != m,
        decreases v@.len() - i,
    {
        if v[i] == m {
            return true;
        }
        i += 1;
    }
    false
}

/// Filters the raw dictionary lines: keeps each line that spells five
/// distinct letters, unless a word with the same letter set was already
/// retained (anagrams collapse to their first-seen spelling), and counts
/// letter frequencies over the retained words.
pub fn filter_words(lines: &Vec<Vec<u8>>) -> (r: Candidates)
    requires
        lines@.len() < 0xffff_ffff_ffff_ffff,
    ensures
        r.wf(),
        // every retained word spells some qualifying line
        forall|i: int|
            0 <= i < r.words@.len() ==> #[trigger] word_has_source(r.words@[i], lines@),
        // every qualifying line's letter set is represented exactly once
        forall|k: int|
            0 <= k < lines@.len() && qualifies(#[trigger] lines@[k]@) ==> exists|i: int|
                0 <= i < r.masks@.len() && mask_set(r.masks@[i]) == line_letters(lines@[k]@),
{
    let mut words: Vec<ZWord> = Vec::new();
    let mut masks: Vec<u32> = Vec::new();
    let mut freq: Vec<u64> = Vec::new();
    // ghost witnesses: the source line of each retained word, and the
    // retained index representing each qualifying line's letter set
    let ghost mut srcs: Seq<int> = Seq::empty();
    let ghost mut reps: Seq<int> = Seq::empty();
    let mut l: usize = 0;
    while l < 26
        invariant
            freq@.len() == l,
            l <= 26,
            forall|j: int| 0 <= j < l ==> freq@[j] == 0,
        decreases 26 - l,
    {
        freq.push(0);
        l += 1;
    }
    let mut k: usize = 0;
    while k < lines.len()
        invariant
            k <= lines@.len(),
            lines@.len() < 0xffff_ffff_ffff_ffff,
            words@.len() == masks@.len(),
            words@.len() <= k,
            freq@.len() == 26,
            srcs.len() == words@.len(),
            reps.len() == k,
            forall|i: int|
                0 <= i < words@.len() ==> {
                    &&& (#[trigger] words@[i]).wf()
                    &&& words@[i].distinct()
                    &&& mask_set(masks@[i]) == words@[i].letter_set()
                    &&& mask_set(masks@[i]).len() == 5
                },
            forall|i: int, j: int| 0 <= i < j < masks@.len() ==> masks@[i] != masks@[j],
            forall|ll: int| 0 <= ll < 26 ==> freq@[ll] == count_with_letter(words@, ll),
            forall|i: int|
                0 <= i < words@.len() ==> #[trigger] word_source_at(
                    words@[i],
                    lines@,
                    srcs[i],
                ),
            forall|kk: int|
                0 <= kk < k && qualifies(#[trigger] lines@[kk]@) ==> {
                    &&& 0 <= reps[kk] < masks@.len()
                    &&& mask_set(masks@[reps[kk]]) == line_letters(lines@[kk]@)
                },
        decreases lines@.len() - k,
    {
        let parsed = parse_word(&lines[k]);
        match parsed {
            None => {
                proof {
                    reps = reps.push(-1);
                }
            },
            Some((w, m)) => {
                if !contains_mask(&masks, m) {
                    let ghost old_words = words@;
                    let ghost old_masks = masks@;
                    let i0 = w.0[0].ord();
                    let i1 = w.0[1].ord();
                    let i2 = w.0[2].ord();
                    let i3 = w.0[3].ord();
                    let i4 = w.0[4].ord();
                    proof {
                        assert forall|ll: int| 0 <= ll < 26 implies freq@[ll]
                            < 0xffff_ffff_ffff_ffffu64 by {
                            lemma_count_le_len(old_words, ll);
                        }
                    }
                    freq[i0] = freq[i0] + 1;
                    freq[i1] = freq[i1] + 1;
                    freq[i2] = freq[i2] + 1;
                    freq[i3] = freq[i3] + 1;
                    freq[i4] = freq[i4] + 1;
                    words.push(w);
                    masks.push(m);
                    proof {
                        let ghost old_srcs = srcs;
                        srcs = srcs.push(k as int);
                        reps = reps.push(masks@.len() - 1);
                        assert(words@ == old_words.push(w));
                        assert(masks@ == old_masks.push(m));
                        assert forall|k2: int|
                            0 <= k2 < k && qualifies(#[trigger] lines@[k2]@) implies line_letters(
                            lines@[k2]@,
                        ) != w.letter_set() by {
                            if line_letters(lines@[k2]@) == w.letter_set() {
                                let i2 = reps[k2];
                                assert(mask_set(old_masks[i2]) == w.letter_set());
                                assert(mask_set(m) == w.letter_set());
                                lemma_mask_set_injective(old_masks[i2], m);
                                assert(exists|q: int|
                                    0 <= q < old_masks.len() && old_masks[q] == m);
                            }
                        }
                        assert(word_source_at(w, lines@, k as int));
                        assert forall|i: int| 0 <= i < words@.len() implies
                            #[trigger] word_source_at(words@[i], lines@, srcs[i]) by {
                            if i < old_words.len() {
                                assert(words@[i] == old_words[i]);
                                assert(srcs[i] == old_srcs[i]);
                            } else {
                                assert(words@[i] == w && srcs[i] == k as int);
                            }
                        }
                        assert forall|ll: int| 0 <= ll < 26 implies freq@[ll] == count_with_letter(
                            words@,
                            ll,
                        ) by {
                            lemma_count_push(old_words, w, ll);
                            assert(w.letter_set().contains(ll) <==> (ll == w.letter(0) || ll
                                == w.letter(1) || ll == w.letter(2) || ll == w.letter(3) || ll
                                == w.letter(4)));
                        }
                    }
                } else {
                    proof {
                        let i = choose|i: int| 0 <= i < masks@.len() && masks@[i] == m;
                        assert(mask_set(masks@[i]) == line_letters(lines@[k as int]@));
                        reps = reps.push(i);
                    }
                }
            },
        }
        k += 1;
    }
    let r = Candidates { words, masks, freq };
    proof {
        assert forall|i: int| 0 <= i < r.words@.len() implies #[trigger] word_has_source(
            r.words@[i],
            lines@,
        ) by {
            assert(word_source_at(r.words@[i], lines@, srcs[i]));
        }

        assert forall|kk: int|
            0 <= kk < lines@.len() && qualifies(#[trigger] lines@[kk]@) implies exists|i: int|
            0 <= i < r.masks@.len() && mask_set(r.masks@[i]) == line_letters(lines@[kk]@) by {
            let i = reps[kk];
            assert(0 <= i < r.masks@.len() && mask_set(r.masks@[i]) == line_letters(lines@[kk]@));
        }
    }
    r
}

} // verus!
