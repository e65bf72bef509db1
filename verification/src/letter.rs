//! Letters and five-letter words. A letter is an index in [0, 26); a word is
//! exactly five letters, in spelling order.

use vstd::prelude::*;

verus! {

/// An ASCII byte that spells a letter, either case.
pub open spec fn is_letter_byte(b: u8) -> bool {
    (97 <= b && b <= 122) || (65 <= b && b <= 90)
}

/// The alphabet index of a letter byte, case folded: 'a' and 'A' are 0.
pub open spec fn letter_index_of_byte(b: u8) -> int {
    if 97 <= b {
        b - 97
    } else {
        b - 65
    }
}

/// A character that spells a letter, either case.
pub open spec fn is_letter_char(c: char) -> bool {
    (97 <= c as int && c as int <= 122) || (65 <= c as int && c as int <= 90)
}

/// The alphabet index of a letter character, case folded.
pub open spec fn letter_index_of_char(c: char) -> int {
    if 97 <= c as int {
        c as int - 97
    } else {
        c as int - 65
    }
}

/// One alphabet letter, stored as its index in [0, 26).
#[derive(Clone, Copy, PartialEq, Eq, Structural)]
pub struct ZChar(pub u8);

impl ZChar {
    /// The letter's index is a genuine alphabet position.
    pub open spec fn wf(self) -> bool {
        self.0 < 26
    }

    /// Builds the letter named by an alphabetic character, case folded.
    pub fn from(c: char) -> (r: ZChar)
        requires
            is_letter_char(c),
        ensures
            r.0 == letter_index_of_char(c),
            r.wf(),
    {
        let u = c as u32;
        if u >= 97 {
            ZChar((u - 97) as u8)
        } else {
            ZChar((u - 65) as u8)
        }
    }

    /// Builds the letter named by an alphabetic ASCII byte, case folded.
    pub fn from_byte(b: u8) -> (r: ZChar)
        requires
            is_letter_byte(b),
        ensures
            r.0 == letter_index_of_byte(b),
            r.wf(),
    {
        if b >= 97 {
            ZChar(b - 97)
        } else {
            ZChar(b - 65)
        }
    }

    /// The lowercase character that spells this letter.
    pub fn chr(&self) -> (r: char)
        requires
            self.wf(),
        ensures
            r as int == self.0 + 97,
    {
        (self.0 + 97) as char
    }

    /// The lowercase ASCII byte that spells this letter.
    pub fn byte(&self) -> (r: u8)
        requires
            self.wf(),
        ensures
            r == self.0 + 97,
            is_letter_byte(r),
            letter_index_of_byte(r) == self.0,
    {
        self.0 + 97
    }

    /// The letter's single-bit mask in the natural encoding.
    pub fn mask(&self) -> (r: u32)
        requires
            self.wf(),
        ensures
            r == 1u32 << (self.0 as u32),
    {
        1u32 << self.0
    }

    /// The letter's index, for table lookups.
    pub fn ord(&self) -> (r: usize)
        ensures
            r == self.0 as usize,
    {
        self.0 as usize
    }
}

/// One dictionary word: exactly five letters in spelling order.
#[derive(Clone, Copy)]
pub struct ZWord(pub [ZChar; 5]);

impl ZWord {
    /// The word's letter index at position `k`.
    pub open spec fn letter(self, k: int) -> int {
        self.0[k].0 as int
    }

    /// All five letters are genuine alphabet positions.
    pub open spec fn wf(self) -> bool {
        forall|k: int| 0 <= k < 5 ==> #[trigger] self.0[k].wf()
    }

    /// No letter appears twice in the word.
    pub open spec fn distinct(self) -> bool {
        forall|i: int, j: int| 0 <= i < j < 5 ==> self.letter(i) != self.letter(j)
    }

    /// The set of the word's letters.
    pub open spec fn letter_set(self) -> Set<int> {
        set![self.letter(0), self.letter(1), self.letter(2), self.letter(3), self.letter(4)]
    }

    /// The lowercase ASCII spelling of the word, as a byte sequence.
    pub open spec fn spelled(self) -> Seq<u8> {
        Seq::new(5, |k: int| (self.letter(k) + 97) as u8)
    }

    /// The lowercase ASCII spelling of the word, five bytes.
    pub fn spelling(&self) -> (r: Vec<u8>)
        requires
            self.wf(),
        ensures
            r@ == self.spelled(),
            r@.len() == 5,
            forall|k: int| 0 <= k < 5 ==> r@[k] == self.letter(k) + 97,
    {
        let mut r: Vec<u8> = Vec::new();
        r.push(self.0[0].byte());
        r.push(self.0[1].byte());
        r.push(self.0[2].byte());
        r.push(self.0[3].byte());
        r.push(self.0[4].byte());
        proof {
            assert(r@ =~= self.spelled());
        }
        r
    }
}

/// A word whose letters are distinct has a letter set of exactly five
/// elements.
pub proof fn lemma_letter_set_len(w: ZWord)
    requires
        w.distinct(),
    ensures
        w.letter_set().finite(),
        w.letter_set().len() == 5,
{
    let s0 = Set::<int>::empty();
    let s1 = s0.insert(w.letter(0));
    let s2 = s1.insert(w.letter(1));
    let s3 = s2.insert(w.letter(2));
    let s4 = s3.insert(w.letter(3));
    let s5 = s4.insert(w.letter(4));
    assert(!s0.contains(w.letter(0)));
    assert(!s1.contains(w.letter(1)));
    assert(!s2.contains(w.letter(2)));
    assert(!s3.contains(w.letter(3)));
    assert(!s4.contains(w.letter(4)));
    assert(s5.len() == 5);
    assert(w.letter_set() =~= s5);
}

} // verus!
