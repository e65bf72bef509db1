use quintwords::filter::{filter_words, parse_word};
use quintwords::index::build_index;
use quintwords::letter::ZChar;
use quintwords::remap::build_remap;
use quintwords::search::{search_seed, solve};

fn lines(words: &[&str]) -> Vec<Vec<u8>> {
    words.iter().map(|w| w.as_bytes().to_vec()).collect()
}

fn spelling_of(w: &quintwords::letter::ZWord) -> String {
    String::from_utf8(w.spelling()).unwrap()
}

#[test]
fn zchar_basics() {
    assert_eq!(ZChar::from('a').ord(), 0);
    assert_eq!(ZChar::from('Z').ord(), 25);
    assert_eq!(ZChar::from('c').mask(), 4);
    assert_eq!(ZChar::from('q').chr(), 'q');
    assert_eq!(ZChar::from_byte(b'B').ord(), 1);
}

#[test]
fn qualifying_word_mask_has_popcount_five() {
    let line = b"fjord".to_vec();
    let (w, mask) = parse_word(&line).unwrap();
    assert_eq!(mask.count_ones(), 5);
    assert_eq!(spelling_of(&w), "fjord");
}

#[test]
fn repeated_letter_word_is_rejected() {
    assert!(parse_word(&b"floor".to_vec()).is_none());
    assert!(parse_word(&b"books".to_vec()).is_none());
    assert!(parse_word(&b"aaaaa".to_vec()).is_none());
}

#[test]
fn wrong_length_and_non_letter_lines_are_rejected() {
    assert!(parse_word(&b"abcd".to_vec()).is_none());
    assert!(parse_word(&b"abcdef".to_vec()).is_none());
    assert!(parse_word(&b"ab1de".to_vec()).is_none());
    assert!(parse_word(&b"".to_vec()).is_none());
}

#[test]
fn anagrams_keep_one_representative() {
    let c = filter_words(&lines(&["stale", "least", "tales", "crwth"]));
    assert_eq!(c.words.len(), 2);
    assert_eq!(spelling_of(&c.words[0]), "stale");
    assert_eq!(spelling_of(&c.words[1]), "crwth");
}

#[test]
fn case_folding_deduplicates() {
    let c = filter_words(&lines(&["FJORD", "fjord"]));
    assert_eq!(c.words.len(), 1);
    assert_eq!(spelling_of(&c.words[0]), "fjord");
}

#[test]
fn frequency_counts_retained_words() {
    let c = filter_words(&lines(&["fjord", "flame"]));
    // 'f' appears in both retained words, 'j' in one, 'z' in none
    assert_eq!(c.freq[(b'f' - b'a') as usize], 2);
    assert_eq!(c.freq[(b'j' - b'a') as usize], 1);
    assert_eq!(c.freq[(b'z' - b'a') as usize], 0);
}

#[test]
fn remap_is_a_bijection_with_least_frequent_at_zero() {
    let mut counts: Vec<u64> = vec![10; 26];
    counts[16] = 0; // 'q' rarest
    counts[4] = 3; // 'e'
    let lut = build_remap(&counts);
    assert_eq!(lut.len(), 26);
    let mut seen = [false; 26];
    for l in 0..26 {
        let (mask, pos) = lut[l];
        assert!(pos < 26);
        assert!(!seen[pos], "bit position assigned twice");
        seen[pos] = true;
        assert_eq!(mask, 1u32 << pos);
    }
    assert!(seen.iter().all(|&s| s));
    assert_eq!(lut[16].1, 0, "least frequent letter must get bit 0");
    assert_eq!(lut[4].1, 1, "second least frequent letter comes next");
}

#[test]
fn every_mask_sits_in_exactly_one_bucket() {
    let c = filter_words(&lines(&["fjord", "gucks", "nymph", "vibex", "waltz"]));
    let lut = build_remap(&c.freq);
    let (idx, _) = build_index(&c, &lut);
    assert_eq!(idx.buckets.len(), 26);
    assert_eq!(idx.table.len(), 5);
    for &(mask, _) in idx.table.iter() {
        let low = mask.trailing_zeros() as usize;
        let mut homes: usize = 0;
        for j in 0..26 {
            if idx.buckets[j].iter().any(|&m| m == mask) {
                homes += 1;
                assert_eq!(j, low, "mask must sit in the bucket of its lowest set bit");
            }
        }
        assert_eq!(homes, 1, "mask must sit in exactly one bucket");
    }
}

#[test]
fn canonical_five_word_solution_is_reported() {
    let dict = lines(&["fjord", "gucks", "nymph", "vibex", "waltz"]);
    let sols = solve(&dict);
    assert_eq!(sols.len(), 1);
    let s = &sols[0];
    let line = String::from_utf8(s.line()).unwrap();
    assert_eq!(line, "waltz vibex gucks fjord nymph");
    let mut spelled: Vec<String> = s.words.iter().map(spelling_of).collect();
    spelled.sort();
    assert_eq!(spelled, vec!["fjord", "gucks", "nymph", "vibex", "waltz"]);
    // pairwise disjoint masks, 25 bits in the union
    let mut union = 0u32;
    for i in 0..5 {
        for j in 0..5 {
            if i != j {
                assert_eq!(s.masks[i] & s.masks[j], 0);
            }
        }
        union |= s.masks[i];
    }
    assert_eq!(union.count_ones(), 25);
}

#[test]
fn overlapping_letters_block_the_solution() {
    // "glyph" and "crwth" share the letter 'h': no 25-letter union exists
    let dict = lines(&["glyph", "crwth", "vozhd", "squib", "nymph"]);
    let sols = solve(&dict);
    assert_eq!(sols.len(), 0);
}

#[test]
fn fewer_than_five_words_give_no_solution() {
    assert_eq!(solve(&lines(&["fjord"])).len(), 0);
    assert_eq!(solve(&lines(&[])).len(), 0);
    assert_eq!(solve(&lines(&["fjord", "gucks", "nymph", "vibex"])).len(), 0);
}

#[test]
fn no_disjoint_combination_gives_no_output() {
    let dict = lines(&["abcde", "bcdef", "cdefg", "defgh", "efghi", "fghij"]);
    assert_eq!(solve(&dict).len(), 0);
}

#[test]
fn pipeline_is_idempotent() {
    let dict = lines(&[
        "fjord", "gucks", "nymph", "vibex", "waltz", "stale", "least", "crwth",
    ]);
    let sols1 = solve(&dict);
    let sols2 = solve(&dict);
    assert_eq!(sols1.len(), sols2.len());
    let mut sets1: Vec<Vec<String>> = sols1
        .iter()
        .map(|s| {
            let mut v: Vec<String> = s.words.iter().map(spelling_of).collect();
            v.sort();
            v
        })
        .collect();
    let mut sets2: Vec<Vec<String>> = sols2
        .iter()
        .map(|s| {
            let mut v: Vec<String> = s.words.iter().map(spelling_of).collect();
            v.sort();
            v
        })
        .collect();
    sets1.sort();
    sets2.sort();
    assert_eq!(sets1, sets2);
}

#[test]
fn boundary_seed_adds_nothing_here() {
    let c = filter_words(&lines(&["fjord", "gucks", "nymph", "vibex", "waltz"]));
    let lut = build_remap(&c.freq);
    let (idx, _) = build_index(&c, &lut);
    // the extra seed past the 26 letters finds nothing on this dictionary
    assert_eq!(search_seed(&idx, 26).len(), 0);
    // the 27 per-seed searches together report exactly what solve reports
    let mut total: usize = 0;
    for seed in 0..27 {
        let part = search_seed(&idx, seed);
        for s in part.iter() {
            // the seed's pre-set bit stays untouched by every reported mask
            for i in 0..5 {
                assert_eq!(s.masks[i] & (1u32 << seed), 0);
            }
        }
        total += part.len();
    }
    assert_eq!(total, solve(&lines(&["fjord", "gucks", "nymph", "vibex", "waltz"])).len());
}
