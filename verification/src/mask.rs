//! Candidate masks: sets of digits 1..=9 packed into nine bits.
//!
//! Bit `i` stands for digit `i + 1`. A mask is viewed as the `Set<int>` of the
//! digits it holds; every operation is specified over that view.

use vstd::prelude::*;
use vstd::set_lib::*;
use crate::types::Unsolvable;

verus! {

/// The set of all nine digits.
pub open spec fn all_digits() -> Set<int> {
    Set::new(|d: int| 1 <= d <= 9)
}

/// Bit `d - 1` of `bits` is set.
pub open spec fn bit_at(bits: u16, d: int) -> bool {
    (bits >> ((d - 1) as u16)) & 1u16 == 1u16
}

/// The digits held by a bit pattern.
pub open spec fn digits_of(bits: u16) -> Set<int> {
    Set::new(|d: int| 1 <= d <= 9 && bit_at(bits, d))
}

/// A set of digits 1..=9.
#[derive(Clone, Copy, Debug, PartialEq, Eq, Hash)]
pub struct Mask {
    bits: u16,
}

impl View for Mask {
    type V = Set<int>;

    closed spec fn view(&self) -> Set<int> {
        digits_of(self.bits)
    }
}

/// The members of `s` that are below `bound`.
pub open spec fn below(s: Set<int>, bound: int) -> Set<int> {
    Set::new(|d: int| s.contains(d) && d < bound)
}

/// A set of digits is finite and holds at most nine members.
pub proof fn lemma_digit_set_finite(s: Set<int>)
    requires
        s.subset_of(all_digits()),
    ensures
        s.finite(),
        s.len() <= 9,
{
    lemma_int_range(1, 10);
    assert(all_digits() =~= set_int_range(1, 10));
    lemma_len_subset(s, all_digits());
}

/// There are nine digits.
pub proof fn lemma_all_digits_len()
    ensures
        all_digits().finite(),
        all_digits().len() == 9,
{
    lemma_int_range(1, 10);
    assert(all_digits() =~= set_int_range(1, 10));
}

/// Removing members from a finite set does not raise its size, and lowers it
/// when a member is lost.
pub proof fn lemma_digit_set_shrinks(small: Set<int>, big: Set<int>)
    requires
        small.subset_of(big),
        big.subset_of(all_digits()),
    ensures
        small.len() <= big.len(),
        small != big ==> small.len() < big.len(),
{
    lemma_digit_set_finite(big);
    lemma_len_subset(small, big);
    if small.len() == big.len() {
        lemma_subset_equality(small, big);
    }
}

/// A finite set with two different members has at least two members.
pub proof fn lemma_two_members(s: Set<int>, a: int, b: int)
    requires
        s.finite(),
        s.contains(a),
        s.contains(b),
        a != b,
    ensures
        s.len() >= 2,
{
    let pair = set![a, b];
    assert(pair.finite());
    assert(pair =~= Set::empty().insert(a).insert(b));
    assert(pair.len() == 2);
    lemma_len_subset(pair, s);
}

/// A bit of `a | b` is set when it is set in `a` or in `b`.
proof fn lemma_bits_or(a: u16, b: u16, i: u16)
    requires
        i < 16,
    ensures
        ((a | b) >> i) & 1u16 == 1u16 <==> ((a >> i) & 1u16 == 1u16 || (b >> i) & 1u16 == 1u16),
        a < 512 && b < 512 ==> (a | b) < 512,
{
    assert(((a | b) >> i) & 1u16 == 1u16 <==> ((a >> i) & 1u16 == 1u16 || (b >> i) & 1u16 == 1u16))
        by (bit_vector);
    assert(a < 512 && b < 512 ==> (a | b) < 512) by (bit_vector);
}

/// A bit of `a & b` is set when it is set in `a` and in `b`.
proof fn lemma_bits_and(a: u16, b: u16, i: u16)
    requires
        i < 16,
    ensures
        ((a & b) >> i) & 1u16 == 1u16 <==> ((a >> i) & 1u16 == 1u16 && (b >> i) & 1u16 == 1u16),
        a < 512 ==> (a & b) < 512,
{
    assert(((a & b) >> i) & 1u16 == 1u16 <==> ((a >> i) & 1u16 == 1u16 && (b >> i) & 1u16 == 1u16))
        by (bit_vector);
    assert(a < 512 ==> (a & b) < 512) by (bit_vector);
}

/// A bit of `a & !b` is set when it is set in `a` and not in `b`.
proof fn lemma_bits_and_not(a: u16, b: u16, i: u16)
    requires
        i < 16,
    ensures
        ((a & !b) >> i) & 1u16 == 1u16 <==> ((a >> i) & 1u16 == 1u16 && !((b >> i) & 1u16 == 1u16)),
        a < 512 ==> (a & !b) < 512,
{
    assert(((a & !b) >> i) & 1u16 == 1u16 <==> ((a >> i) & 1u16 == 1u16 && !((b >> i) & 1u16
        == 1u16))) by (bit_vector);
    assert(a < 512 ==> (a & !b) < 512) by (bit_vector);
}

/// Of `1 << i` bit `i` is set and no other.
proof fn lemma_bits_single(i: u16, j: u16)
    requires
        i < 9,
        j < 16,
    ensures
        ((1u16 << i) >> j) & 1u16 == 1u16 <==> i == j,
        (1u16 << i) < 512,
{
    assert(i < 9 && j < 16 ==> (((1u16 << i) >> j) & 1u16 == 1u16 <==> i == j)) by (bit_vector);
    assert(i < 9 ==> (1u16 << i) < 512) by (bit_vector);
}

/// Nine bits are zero when none is set, and `0x1ff` when all are.
proof fn lemma_bits_zero(a: u16)
    requires
        a < 512,
    ensures
        a == 0 <==> (forall|i: u16| i < 9 ==> (a >> i) & 1u16 != 1u16),
        a == 0x1ff <==> (forall|i: u16| i < 9 ==> (a >> i) & 1u16 == 1u16),
{
    assert(a < 512 ==> (a == 0 <==> ((a >> 0u16) & 1u16 != 1u16 && (a >> 1u16) & 1u16 != 1u16 && (a
        >> 2u16) & 1u16 != 1u16 && (a >> 3u16) & 1u16 != 1u16 && (a >> 4u16) & 1u16 != 1u16 && (a
        >> 5u16) & 1u16 != 1u16 && (a >> 6u16) & 1u16 != 1u16 && (a >> 7u16) & 1u16 != 1u16 && (a
        >> 8u16) & 1u16 != 1u16))) by (bit_vector);
    assert(a < 512 ==> (a == 0x1ff <==> ((a >> 0u16) & 1u16 == 1u16 && (a >> 1u16) & 1u16 == 1u16
        && (a >> 2u16) & 1u16 == 1u16 && (a >> 3u16) & 1u16 == 1u16 && (a >> 4u16) & 1u16 == 1u16
        && (a >> 5u16) & 1u16 == 1u16 && (a >> 6u16) & 1u16 == 1u16 && (a >> 7u16) & 1u16 == 1u16
        && (a >> 8u16) & 1u16 == 1u16))) by (bit_vector);
}

/// A bit that is set in a pattern below 512 is one of the low nine.
proof fn lemma_bits_high(a: u16, i: u16)
    requires
        a < 512,
        i < 16,
        (a >> i) & 1u16 == 1u16,
    ensures
        i < 9,
{
    assert(i < 16 && (a >> i) & 1u16 == 1u16 && a < 512 ==> i < 9) by (bit_vector);
}

/// What the lowest set bit is to the others: none is below it, clearing it
/// leaves the others, and a pattern that is cleared by that has no other.
proof fn lemma_bits_lowest(a: u16, low: u16, i: u16)
    requires
        low < 16,
        i < 16,
        a >= 1,
        (a >> low) & 1u16 == 1u16,
        a << ((16 - low) as u16) == 0,
    ensures
        (a >> i) & 1u16 == 1u16 ==> low <= i,
        a & ((a - 1) as u16) == 0 ==> ((a >> i) & 1u16 == 1u16 ==> i == low),
        ((a & ((a - 1) as u16)) >> i) & 1u16 == 1u16 ==> i != low && (a >> i) & 1u16 == 1u16,
{
    assert(low < 16 && i < 16 && a << ((16 - low) as u16) == 0 && (a >> i) & 1u16 == 1u16 ==> low
        <= i) by (bit_vector);
    assert(low < 16 && i < 16 && a >= 1 && (a >> low) & 1u16 == 1u16 && a & ((a - 1) as u16) == 0
        && (a >> i) & 1u16 == 1u16 ==> i == low) by (bit_vector);
    assert(low < 16 && i < 16 && a >= 1 && (a >> low) & 1u16 == 1u16 && a << ((16 - low) as u16)
        == 0 && ((a & ((a - 1) as u16)) >> i) & 1u16 == 1u16 ==> i != low && (a >> i) & 1u16
        == 1u16) by (bit_vector);
}

impl Mask {
    /// Only the low nine bits are used.
    #[verifier::type_invariant]
    spec fn in_range(self) -> bool {
        self.bits < 512
    }

    /// The view holds digits only.
    pub proof fn lemma_view(self)
        ensures
            self@.subset_of(all_digits()),
            self@.finite(),
            self@.len() <= 9,
    {
        lemma_digit_set_finite(self@);
    }

    /// All nine digits.
    pub fn all() -> (r: Mask)
        ensures
            r@ == all_digits(),
    {
        let r = Mask { bits: 0x1ff };
        proof {
            lemma_bits_zero(0x1ff);
            assert forall|d: int| 1 <= d <= 9 implies bit_at(0x1ff, d) by {
                let i = (d - 1) as u16;
                assert(i < 9);
            }
            assert(r@ =~= all_digits());
        }
        r
    }

    /// No digit.
    pub fn none() -> (r: Mask)
        ensures
            r@ == Set::<int>::empty(),
    {
        let r = Mask { bits: 0 };
        proof {
            lemma_bits_zero(0);
            assert forall|d: int| 1 <= d <= 9 implies !bit_at(0, d) by {
                let i = (d - 1) as u16;
                assert(i < 9);
            }
            assert(r@ =~= Set::<int>::empty());
        }
        r
    }

    /// The mask that holds `num` alone.
    pub fn from_num(num: u8) -> (r: Mask)
        requires
            1 <= num <= 9,
        ensures
            r@ == set![num as int],
    {
        proof {
            lemma_bits_single((num - 1) as u16, 0);
        }
        let r = Mask { bits: 1u16 << ((num - 1) as u16) };
        proof {
            assert forall|d: int| 1 <= d <= 9 implies (bit_at(r.bits, d) <==> d == num) by {
                lemma_bits_single((num - 1) as u16, (d - 1) as u16);
            }
            assert(r@ =~= set![num as int]);
        }
        r
    }

    /// Digits in either mask.
    pub fn union(self, other: Mask) -> (r: Mask)
        ensures
            r@ == self@.union(other@),
    {
        proof {
            use_type_invariant(&self);
            use_type_invariant(&other);
            lemma_bits_or(self.bits, other.bits, 0);
            assert forall|d: int| 1 <= d <= 9 implies (bit_at(self.bits | other.bits, d) <==> (
            bit_at(self.bits, d) || bit_at(other.bits, d))) by {
                lemma_bits_or(self.bits, other.bits, (d - 1) as u16);
            }
            assert(digits_of(self.bits | other.bits) =~= self@.union(other@));
        }
        Mask { bits: self.bits | other.bits }
    }

    /// Digits in both masks.
    pub fn intersect(self, other: Mask) -> (r: Mask)
        ensures
            r@ == self@.intersect(other@),
    {
        proof {
            use_type_invariant(&self);
            lemma_bits_and(self.bits, other.bits, 0);
            assert forall|d: int| 1 <= d <= 9 implies (bit_at(self.bits & other.bits, d) <==> (
            bit_at(self.bits, d) && bit_at(other.bits, d))) by {
                lemma_bits_and(self.bits, other.bits, (d - 1) as u16);
            }
            assert(digits_of(self.bits & other.bits) =~= self@.intersect(other@));
        }
        Mask { bits: self.bits & other.bits }
    }

    /// Digits of `self` that `other` does not hold.
    pub fn without(self, other: Mask) -> (r: Mask)
        ensures
            r@ == self@.difference(other@),
    {
        proof {
            use_type_invariant(&self);
            lemma_bits_and_not(self.bits, other.bits, 0);
            assert forall|d: int| 1 <= d <= 9 implies (bit_at(self.bits & !other.bits, d) <==> (
            bit_at(self.bits, d) && !bit_at(other.bits, d))) by {
                lemma_bits_and_not(self.bits, other.bits, (d - 1) as u16);
            }
            assert(digits_of(self.bits & !other.bits) =~= self@.difference(other@));
        }
        Mask { bits: self.bits & !other.bits }
    }

    /// Takes the digits of `other` out of `self`.
    pub fn remove(&mut self, other: Mask)
        ensures
            final(self)@ == old(self)@.difference(other@),
    {
        *self = self.without(other);
    }

    /// Whether `num` is held.
    pub fn contains(self, num: u8) -> (r: bool)
        requires
            1 <= num <= 9,
        ensures
            r == self@.contains(num as int),
    {
        (self.bits >> ((num - 1) as u16)) & 1u16 == 1u16
    }

    /// Whether no digit is held.
    pub fn is_empty(self) -> (r: bool)
        ensures
            r == (self@ == Set::<int>::empty()),
            r == (self@.len() == 0),
    {
        proof {
            use_type_invariant(&self);
            lemma_bits_zero(self.bits);
            self.lemma_view();
            if self.bits == 0 {
                assert forall|d: int| 1 <= d <= 9 implies !bit_at(self.bits, d) by {
                    let i = (d - 1) as u16;
                    assert(i < 9);
                }
                assert(self@ =~= Set::<int>::empty());
            } else {
                let i = choose|i: u16| i < 9 && (self.bits >> i) & 1u16 == 1u16;
                assert(bit_at(self.bits, i + 1));
                assert(self@.contains(i + 1));
            }
        }
        self.bits == 0
    }

    /// Whether all nine digits are held.
    pub fn is_full(self) -> (r: bool)
        ensures
            r == (self@ == all_digits()),
    {
        proof {
            use_type_invariant(&self);
            lemma_bits_zero(self.bits);
            if self.bits == 0x1ff {
                assert forall|d: int| 1 <= d <= 9 implies bit_at(self.bits, d) by {
                    let i = (d - 1) as u16;
                    assert(i < 9);
                }
                assert(self@ =~= all_digits());
            } else {
                let i = choose|i: u16| i < 9 && (self.bits >> i) & 1u16 != 1u16;
                assert(!bit_at(self.bits, i + 1));
                assert(!self@.contains(i + 1));
                assert(all_digits().contains(i + 1));
            }
        }
        self.bits == 0x1ff
    }

    /// Number of digits held.
    pub fn n_possibilities(self) -> (r: u8)
        ensures
            r == self@.len(),
            r <= 9,
    {
        let mut n: u8 = 0;
        let mut d: u8 = 1;
        proof {
            self.lemma_view();
            assert(below(self@, 1) =~= Set::<int>::empty());
        }
        while d <= 9
            invariant
                1 <= d <= 10,
                n < d,
                n == below(self@, d as int).len(),
                below(self@, d as int).finite(),
                self@.subset_of(all_digits()),
            decreases 10 - d,
        {
            proof {
                let prev = below(self@, d as int);
                let next = below(self@, d + 1);
                if self@.contains(d as int) {
                    assert(next =~= prev.insert(d as int));
                } else {
                    assert(next =~= prev);
                }
            }
            if (self.bits >> ((d - 1) as u16)) & 1u16 == 1u16 {
                n += 1;
            }
            d += 1;
        }
        proof {
            assert(below(self@, 10) =~= self@);
        }
        n
    }

    /// The lowest digit held.
    pub fn one_possibility(self) -> (r: u8)
        requires
            self@.len() > 0,
        ensures
            self@.contains(r as int),
            1 <= r <= 9,
            forall|d: int| self@.contains(d) ==> r <= d,
    {
        let low = self.bits.trailing_zeros();
        proof {
            use_type_invariant(&self);
            vstd::std_specs::bits::axiom_u16_trailing_zeros(self.bits);
            lemma_bits_zero(self.bits);
            self.lemma_view();
            if self.bits == 0 {
                assert forall|d: int| 1 <= d <= 9 implies !bit_at(self.bits, d) by {
                    let i = (d - 1) as u16;
                    assert(i < 9);
                }
                assert(self@ =~= Set::<int>::empty());
            }
            assert(low < 16);
            lemma_bits_high(self.bits, low as u16);
            lemma_bits_lowest(self.bits, low as u16, 0);
            assert(bit_at(self.bits, low + 1));
            assert forall|d: int| self@.contains(d) implies low + 1 <= d by {
                lemma_bits_lowest(self.bits, low as u16, (d - 1) as u16);
            }
        }
        (low + 1) as u8
    }

    /// Tells an empty mask (an error), a mask of one digit (that digit), and a
    /// mask of several digits (`None`) apart.
    pub fn unique_num(self) -> (r: Result<Option<u8>, Unsolvable>)
        ensures
            r is Err <==> self@.len() == 0,
            r matches Ok(Some(d)) ==> self@ == set![d as int] && 1 <= d <= 9,
            r matches Ok(None) ==> self@.len() >= 2,
    {
        if self.is_empty() {
            return Err(Unsolvable);
        }
        let low = self.bits.trailing_zeros();
        proof {
            use_type_invariant(&self);
            vstd::std_specs::bits::axiom_u16_trailing_zeros(self.bits);
            self.lemma_view();
            assert(self.bits != 0) by {
                if self.bits == 0 {
                    lemma_bits_zero(self.bits);
                    assert forall|d: int| 1 <= d <= 9 implies !bit_at(self.bits, d) by {
                        let i = (d - 1) as u16;
                        assert(i < 9);
                    }
                    assert(self@ =~= Set::<int>::empty());
                }
            }
            assert(low < 16);
            lemma_bits_high(self.bits, low as u16);
            lemma_bits_lowest(self.bits, low as u16, 0);
            assert(bit_at(self.bits, low + 1));
        }
        let rest: u16 = self.bits & (self.bits - 1);
        if rest == 0 {
            proof {
                assert forall|d: int| self@.contains(d) implies d == low + 1 by {
                    lemma_bits_lowest(self.bits, low as u16, (d - 1) as u16);
                }
                assert(self@ =~= set![(low + 1) as int]);
            }
            Ok(Some((low + 1) as u8))
        } else {
            proof {
                let second = rest.trailing_zeros();
                vstd::std_specs::bits::axiom_u16_trailing_zeros(rest);
                assert(second < 16);
                lemma_bits_lowest(self.bits, low as u16, second as u16);
                lemma_bits_high(self.bits, second as u16);
                assert(bit_at(self.bits, second + 1));
                lemma_two_members(self@, low + 1, second + 1);
            }
            Ok(None)
        }
    }

    /// The digits held, in ascending order.
    pub fn digits(self) -> (r: Vec<u8>)
        ensures
            r.len() == self@.len(),
            forall|i: int| 0 <= i < r.len() ==> self@.contains(#[trigger] r[i] as int),
            forall|i: int, j: int| 0 <= i < j < r.len() ==> r[i] < r[j],
            forall|d: int| self@.contains(d) ==> exists|i: int| 0 <= i < r.len() && r[i] == d,
    {
        let mut out: Vec<u8> = Vec::new();
        let mut d: u8 = 1;
        proof {
            self.lemma_view();
            assert(below(self@, 1) =~= Set::<int>::empty());
        }
        while d <= 9
            invariant
                1 <= d <= 10,
                out.len() < d,
                out.len() == below(self@, d as int).len(),
                below(self@, d as int).finite(),
                self@.subset_of(all_digits()),
                forall|i: int| 0 <= i < out.len() ==> self@.contains(#[trigger] out[i] as int),
                forall|i: int| 0 <= i < out.len() ==> #[trigger] out[i] < d,
                forall|i: int, j: int| 0 <= i < j < out.len() ==> out[i] < out[j],
                forall|x: int|
                    self@.contains(x) && x < d ==> exists|i: int| 0 <= i < out.len() && out[i] == x,
            decreases 10 - d,
        {
            proof {
                let prev = below(self@, d as int);
                let next = below(self@, d + 1);
                if self@.contains(d as int) {
                    assert(next =~= prev.insert(d as int));
                } else {
                    assert(next =~= prev);
                }
            }
            if (self.bits >> ((d - 1) as u16)) & 1u16 == 1u16 {
                let ghost before = out@;
                out.push(d);
                proof {
                    assert forall|x: int| self@.contains(x) && x < d + 1 implies exists|i: int|
                        0 <= i < out.len() && out[i] == x by {
                        if x < d {
                            let i = choose|i: int| 0 <= i < before.len() && before[i] == x;
                            assert(out[i] == x);
                        } else {
                            assert(out[out.len() - 1] == x);
                        }
                    }
                }
            }
            d += 1;
        }
        proof {
            assert(below(self@, 10) =~= self@);
        }
        out
    }

    /// The digit that has exactly `choice` held digits below it.
    pub fn nth_possibility(self, choice: u8) -> (r: u8)
        requires
            choice < self@.len(),
        ensures
            1 <= r <= 9,
            self@.contains(r as int),
            below(self@, r as int).len() == choice,
    {
        let mut n: u8 = 0;
        let mut d: u8 = 1;
        proof {
            self.lemma_view();
            assert(below(self@, 1) =~= Set::<int>::empty());
        }
        while d <= 9
            invariant
                1 <= d <= 10,
                n < d,
                n <= choice,
                n == below(self@, d as int).len(),
                below(self@, d as int).finite(),
                self@.subset_of(all_digits()),
                choice < self@.len(),
            decreases 10 - d,
        {
            proof {
                let prev = below(self@, d as int);
                let next = below(self@, d + 1);
                if self@.contains(d as int) {
                    assert(next =~= prev.insert(d as int));
                } else {
                    assert(next =~= prev);
                }
            }
            if (self.bits >> ((d - 1) as u16)) & 1u16 == 1u16 {
                if n == choice {
                    return d;
                }
                n += 1;
            }
            d += 1;
        }
        proof {
            assert(below(self@, 10) =~= self@);
        }
        d
    }
}

} // verus!
