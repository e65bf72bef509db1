//! Bit-level model: a 26-bit word mask is viewed as the set of its set bit
//! positions, so that popcount and disjointness arguments become set
//! cardinality arguments.

use vstd::prelude::*;
use vstd::set_lib::{lemma_int_range, lemma_len_subset, lemma_set_disjoint_lens, set_int_range};
use vstd::std_specs::bits::{
    axiom_u32_trailing_ones, axiom_u32_trailing_zeros, u32_trailing_ones, u32_trailing_zeros,
};

verus! {

/// The set of bit positions in [0, 32) that are set in `m`.
pub open spec fn mask_set(m: u32) -> Set<int> {
    Set::new(|i: int| 0 <= i < 32 && (m >> (i as u32)) & 1u32 == 1u32)
}

/// Every mask's bit set is finite, bounded by the 32 bit positions.
pub proof fn lemma_mask_set_finite(m: u32)
    ensures
        mask_set(m).finite(),
        mask_set(m).len() <= 32,
{
    lemma_int_range(0, 32);
    assert(mask_set(m).subset_of(set_int_range(0, 32)));
    lemma_len_subset(mask_set(m), set_int_range(0, 32));
}

/// A single-bit mask's set is the singleton of that position.
pub proof fn lemma_mask_single(k: u32)
    requires
        k < 32,
    ensures
        mask_set(1u32 << k) =~= Set::<int>::empty().insert(k as int),
{
    assert forall|i: int| #[trigger] mask_set(1u32 << k).contains(i) implies i == k as int by {
        let iu = i as u32;
        assert((((1u32 << k) >> iu) & 1u32 == 1u32) ==> iu == k) by (bit_vector)
            requires
                k < 32,
                iu < 32,
        ;
    }
    assert(((1u32 << k) >> k) & 1u32 == 1u32) by (bit_vector)
        requires
            k < 32,
    ;
    assert(mask_set(1u32 << k).contains(k as int));
}

/// Bitwise or takes the union of the bit sets.
pub proof fn lemma_mask_or(a: u32, b: u32)
    ensures
        mask_set(a | b) =~= mask_set(a).union(mask_set(b)),
{
    assert forall|i: int| 0 <= i < 32 implies ((#[trigger] ((a | b) >> (i as u32))) & 1u32 == 1u32
        <==> ((a >> (i as u32)) & 1u32 == 1u32 || (b >> (i as u32)) & 1u32 == 1u32)) by {
        let iu = i as u32;
        assert(((a | b) >> iu) & 1u32 == 1u32 <==> ((a >> iu) & 1u32 == 1u32 || (b >> iu) & 1u32
            == 1u32)) by (bit_vector)
            requires
                iu < 32,
        ;
    }
}

/// A zero bitwise and means the bit sets are disjoint.
pub proof fn lemma_mask_and_disjoint(a: u32, b: u32)
    requires
        a & b == 0,
    ensures
        mask_set(a).disjoint(mask_set(b)),
{
    assert forall|i: int| #[trigger] mask_set(a).contains(i) implies !mask_set(b).contains(i) by {
        let iu = i as u32;
        assert(!((a >> iu) & 1u32 == 1u32 && (b >> iu) & 1u32 == 1u32)) by (bit_vector)
            requires
                iu < 32,
                a & b == 0,
        ;
    }
}

/// Testing a single bit against a mask reads membership in its bit set.
pub proof fn lemma_mask_test(m: u32, k: u32)
    requires
        k < 32,
    ensures
        (m & (1u32 << k) != 0) <==> mask_set(m).contains(k as int),
{
    assert((m & (1u32 << k) != 0) <==> ((m >> k) & 1u32 == 1u32)) by (bit_vector)
        requires
            k < 32,
    ;
}

/// A mask contained in `used`, in the sense that `sel & used == sel`, shares
/// no bit with anything disjoint from `used`; and it stays contained when
/// `used` grows.
pub proof fn lemma_contained_and_disjoint(sel: u32, used: u32, bits: u32)
    by (bit_vector)
    requires
        sel & used == sel,
        used & bits == 0,
    ensures
        sel & bits == 0,
        bits & sel == 0,
        sel & (used | bits) == sel,
        bits & (used | bits) == bits,
{
}

/// A mask disjoint from two masks is disjoint from their combination.
pub proof fn lemma_or_disjoint(a: u32, b: u32, c: u32)
    by (bit_vector)
    requires
        a & b == 0,
        a & c == 0,
    ensures
        a & (b | c) == 0,
{
}

/// Five pairwise disjoint five-element sets unite to twenty-five elements.
pub proof fn lemma_disjoint_union5(a: Set<int>, b: Set<int>, c: Set<int>, d: Set<int>, e: Set<int>)
    requires
        a.finite() && b.finite() && c.finite() && d.finite() && e.finite(),
        a.len() == 5 && b.len() == 5 && c.len() == 5 && d.len() == 5 && e.len() == 5,
        a.disjoint(b) && a.disjoint(c) && a.disjoint(d) && a.disjoint(e),
        b.disjoint(c) && b.disjoint(d) && b.disjoint(e),
        c.disjoint(d) && c.disjoint(e),
        d.disjoint(e),
    ensures
        a.union(b).union(c).union(d).union(e).finite(),
        a.union(b).union(c).union(d).union(e).len() == 25,
{
    let ab = a.union(b);
    lemma_disjoint_union_len(a, b);
    assert forall|x: int| ab.contains(x) implies !c.contains(x) by {}
    let abc = ab.union(c);
    lemma_disjoint_union_len(ab, c);
    assert forall|x: int| abc.contains(x) implies !d.contains(x) by {}
    let abcd = abc.union(d);
    lemma_disjoint_union_len(abc, d);
    assert forall|x: int| abcd.contains(x) implies !e.contains(x) by {}
    lemma_disjoint_union_len(abcd, e);
}

/// The count of trailing one bits never exceeds the number of set bits.
pub proof fn lemma_trailing_ones_le_len(m: u32)
    requires
        m != 0xffff_ffffu32,
    ensures
        u32_trailing_ones(m) < 32,
        u32_trailing_ones(m) <= mask_set(m).len(),
{
    axiom_u32_trailing_ones(m);
    let t = u32_trailing_ones(m) as int;
    assert forall|j: int| 0 <= j < t implies #[trigger] mask_set(m).contains(j) by {
        let ju = j as u32;
        assert((m >> ju) & 1u32 == 1u32);
    }
    lemma_mask_set_finite(m);
    lemma_int_range(0, t);
    assert(set_int_range(0, t).subset_of(mask_set(m)));
    lemma_len_subset(set_int_range(0, t), mask_set(m));
}

/// A mask is determined by its bit set.
pub proof fn lemma_mask_set_injective(a: u32, b: u32)
    requires
        mask_set(a) == mask_set(b),
    ensures
        a == b,
{
    if a != b {
        let x = a ^ b;
        assert(x != 0) by (bit_vector)
            requires
                a != b,
                x == a ^ b,
        ;
        axiom_u32_trailing_zeros(x);
        let t = u32_trailing_zeros(x);
        assert(t < 32);
        assert((x >> t) & 1u32 == 1u32);
        assert(((a >> t) & 1u32 == 1u32) != ((b >> t) & 1u32 == 1u32)) by (bit_vector)
            requires
                x == a ^ b,
                (x >> t) & 1u32 == 1u32,
                t < 32,
        ;
        let ti = t as int;
        assert(ti as u32 == t);
        assert(mask_set(a).contains(ti) <==> (a >> t) & 1u32 == 1u32);
        assert(mask_set(b).contains(ti) <==> (b >> t) & 1u32 == 1u32);
        assert(mask_set(a).contains(ti) != mask_set(b).contains(ti));
    }
}

/// The all-ones mask has every one of the 32 bit positions set.
pub proof fn lemma_mask_set_full()
    ensures
        mask_set(0xffff_ffffu32).len() == 32,
{
    assert forall|i: int| 0 <= i < 32 implies mask_set(0xffff_ffffu32).contains(i) by {
        let iu = i as u32;
        assert((0xffff_ffffu32 >> iu) & 1u32 == 1u32) by (bit_vector)
            requires
                iu < 32,
        ;
    }
    assert(mask_set(0xffff_ffffu32) =~= set_int_range(0, 32));
    lemma_int_range(0, 32);
}

/// Five pairwise distinct values make a set of exactly five elements.
pub proof fn lemma_distinct5_len(a: int, b: int, c: int, d: int, e: int)
    requires
        a != b && a != c && a != d && a != e,
        b != c && b != d && b != e,
        c != d && c != e,
        d != e,
    ensures
        set![a, b, c, d, e].finite(),
        set![a, b, c, d, e].len() == 5,
{
    let s0 = Set::<int>::empty();
    let s1 = s0.insert(a);
    let s2 = s1.insert(b);
    let s3 = s2.insert(c);
    let s4 = s3.insert(d);
    let s5 = s4.insert(e);
    assert(!s0.contains(a));
    assert(!s1.contains(b));
    assert(!s2.contains(c));
    assert(!s3.contains(d));
    assert(!s4.contains(e));
    assert(s5.len() == 5);
    assert(set![a, b, c, d, e] =~= s5);
}

/// The size of the union of two disjoint finite sets is the sum of their
/// sizes.
pub proof fn lemma_disjoint_union_len(a: Set<int>, b: Set<int>)
    requires
        a.finite(),
        b.finite(),
        a.disjoint(b),
    ensures
        a.union(b).len() == a.len() + b.len(),
        a.union(b).finite(),
{
    lemma_set_disjoint_lens(a, b);
    assert(a + b =~= a.union(b));
}

} // verus!
