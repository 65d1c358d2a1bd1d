//! The candidate set of a single grid position.

use vstd::prelude::*;

verus! {

/// The set of all digits, `{1, ..., 9}`.
pub open spec fn all_digits() -> Set<int> {
    vstd::set_lib::set_int_range(1, 10)
}

/// The greatest member of a set of digits.
pub open spec fn top_digit(s: Set<int>) -> int {
    choose|d: int| s.contains(d) && forall|e: int| s.contains(e) ==> e <= d
}

/// The digits still possible at one position of the grid, kept as a bit mask:
/// bit `d` is set exactly when digit `d` is a candidate.
#[derive(Clone, Copy, PartialEq, Eq, Structural, Debug)]
pub struct Cell {
    digits: u16,
}

/// The bits that a well-formed mask never sets: bit 0 and bits 10 to 15.
const UNUSED: u16 = 0xFC01;

/// The mask with the bits of all nine digits set.
const FULL: u16 = 0x03FE;

/// Bit `d` of the mask `m` is set.
spec fn bit16(m: u16, d: u16) -> bool {
    (m >> d) & 1 == 1
}

/// Bit `d` of the mask `m` is set, for a digit given as an integer.
spec fn bit(m: u16, d: int) -> bool {
    bit16(m, d as u16)
}

/// The digits among `1..=k` whose bit is set in `m`.
spec fn digits_upto(m: u16, k: int) -> Set<int> {
    Set::new(|d: int| 1 <= d <= k && bit(m, d))
}

/// The number of digits among `1..=k` whose bit is set in `m`.
spec fn count_upto(m: u16, k: int) -> nat
    decreases k,
{
    if k <= 0 {
        0
    } else {
        count_upto(m, k - 1) + if bit(m, k) {
            1nat
        } else {
            0nat
        }
    }
}

/// The digits among `1..=k` whose bit is set are as many as `count_upto` says.
proof fn lemma_count_upto(m: u16, k: int)
    requires
        0 <= k <= 9,
    ensures
        digits_upto(m, k).finite(),
        digits_upto(m, k).len() == count_upto(m, k),
    decreases k,
{
    if k == 0 {
        assert(digits_upto(m, k) =~= Set::empty());
    } else {
        lemma_count_upto(m, k - 1);
        let below = digits_upto(m, k - 1);
        if bit(m, k) {
            assert(digits_upto(m, k) =~= below.insert(k));
        } else {
            assert(digits_upto(m, k) =~= below);
        }
    }
}

impl View for Cell {
    type V = Set<int>;

    /// The candidate digits.
    closed spec fn view(&self) -> Set<int> {
        digits_upto(self.digits, 9)
    }
}

impl Cell {
    /// The mask sets no bit other than those of the digits 1 to 9.
    pub closed spec fn wf(&self) -> bool {
        self.digits & UNUSED == 0
    }

    /// A cell never holds anything but digits, so its candidate set is finite.
    pub proof fn lemma_view_bounds(self)
        ensures
            self@.finite(),
            self@.subset_of(all_digits()),
            self@.len() <= 9,
    {
        lemma_count_upto(self.digits, 9);
        vstd::set_lib::lemma_int_range(1, 10);
        vstd::set_lib::lemma_len_subset(self@, all_digits());
    }

    /// Two well-formed cells with the same candidates are the same cell.
    pub proof fn lemma_view_injective(self, other: Cell)
        requires
            self.wf(),
            other.wf(),
            self@ == other@,
        ensures
            self == other,
    {
        let a = self.digits;
        let b = other.digits;
        assert(forall|d: int| 1 <= d <= 9 ==> (self@.contains(d) <==> #[trigger] bit(a, d)));
        assert(forall|d: int| 1 <= d <= 9 ==> (other@.contains(d) <==> #[trigger] bit(b, d)));
        assert(bit(a, 1) == bit(b, 1) && bit(a, 2) == bit(b, 2) && bit(a, 3) == bit(b, 3));
        assert(bit(a, 4) == bit(b, 4) && bit(a, 5) == bit(b, 5) && bit(a, 6) == bit(b, 6));
        assert(bit(a, 7) == bit(b, 7) && bit(a, 8) == bit(b, 8) && bit(a, 9) == bit(b, 9));
        assert(a == b) by (bit_vector)
            requires
                a & 0xFC01 == 0,
                b & 0xFC01 == 0,
                bit16(a, 1) == bit16(b, 1),
                bit16(a, 2) == bit16(b, 2),
                bit16(a, 3) == bit16(b, 3),
                bit16(a, 4) == bit16(b, 4),
                bit16(a, 5) == bit16(b, 5),
                bit16(a, 6) == bit16(b, 6),
                bit16(a, 7) == bit16(b, 7),
                bit16(a, 8) == bit16(b, 8),
                bit16(a, 9) == bit16(b, 9),
        ;
    }

    /// The cell fixed to the digit `d`, for `d` from 1 to 9; nothing for any other number.
    pub fn from_digit(d: u16) -> (r: Option<Self>)
        ensures
            r is Some <==> 1 <= d <= 9,
            r matches Some(c) ==> c.wf() && c@ == set![d as int],
    {
        if d == 0 || d > 9 {
            return None;
        }
        let c = Cell { digits: 1u16 << d };
        proof {
            assert((1u16 << d) & 0xFC01 == 0) by (bit_vector)
                requires
                    1 <= d <= 9,
            ;
            assert forall|e: int| 1 <= e <= 9 implies
                (#[trigger] bit(1u16 << d, e) <==> e == d) by {
                let e16 = e as u16;
                assert(((1u16 << d) >> e16) & 1 == 1 <==> e16 == d) by (bit_vector)
                    requires
                        1 <= d <= 9,
                        1 <= e16 <= 9,
                ;
            }
            assert(c@ =~= set![d as int]);
        }
        Some(c)
    }

    /// The cell in which every digit is still possible.
    pub fn all_digits() -> (c: Self)
        ensures
            c.wf(),
            c@ == all_digits(),
            c@.len() == 9,
    {
        let c = Cell { digits: FULL };
        proof {
            vstd::set_lib::lemma_int_range(1, 10);
            assert(0x03FEu16 & 0xFC01 == 0) by (bit_vector);
            assert forall|e: int| 1 <= e <= 9 implies #[trigger] bit(0x03FEu16, e) by {
                let e16 = e as u16;
                assert((0x03FEu16 >> e16) & 1 == 1) by (bit_vector)
                    requires
                        1 <= e16 <= 9,
                ;
            }
            assert(c@ =~= all_digits());
        }
        c
    }

    /// Whether no candidate is left, which marks a contradiction.
    pub fn is_empty(self) -> (b: bool)
        ensures
            b == (self@.len() == 0),
            b == self@.is_empty(),
    {
        proof {
            self.lemma_view_bounds();
        }
        self.len() == 0
    }

    /// The number of candidates.
    pub fn len(self) -> (n: u32)
        ensures
            n == self@.len(),
            n <= 9,
    {
        let m = self.digits;
        proof {
            lemma_count_upto(m, 9);
            reveal_with_fuel(count_upto, 10);
            assert(((m >> 1) & 1 == 0 || (m >> 1) & 1 == 1) && ((m >> 2) & 1 == 0 || (m >> 2) & 1
                == 1) && ((m >> 3) & 1 == 0 || (m >> 3) & 1 == 1) && ((m >> 4) & 1 == 0 || (m >> 4)
                & 1 == 1) && ((m >> 5) & 1 == 0 || (m >> 5) & 1 == 1) && ((m >> 6) & 1 == 0 || (m
                >> 6) & 1 == 1) && ((m >> 7) & 1 == 0 || (m >> 7) & 1 == 1) && ((m >> 8) & 1 == 0
                || (m >> 8) & 1 == 1) && ((m >> 9) & 1 == 0 || (m >> 9) & 1 == 1)) by (bit_vector);
        }
        let low: u16 = ((m >> 1) & 1) + ((m >> 2) & 1) + ((m >> 3) & 1);
        let mid: u16 = ((m >> 4) & 1) + ((m >> 5) & 1) + ((m >> 6) & 1);
        let high: u16 = ((m >> 7) & 1) + ((m >> 8) & 1) + ((m >> 9) & 1);
        (low + mid + high) as u32
    }

    /// The greatest candidate. The cell must have one.
    pub fn first_digit(self) -> (d: u16)
        requires
            self.wf(),
            self@.len() >= 1,
        ensures
            1 <= d <= 9,
            self@.contains(d as int),
            forall|e: int| self@.contains(e) ==> e <= d,
            d == top_digit(self@),
    {
        let m = self.digits;
        proof {
            vstd::std_specs::bits::axiom_u16_leading_zeros(m);
            if m == 0 {
                assert forall|e: int| 1 <= e <= 9 implies !#[trigger] bit(0u16, e) by {
                    let e16 = e as u16;
                    assert((0u16 >> e16) & 1 == 0) by (bit_vector);
                }
                assert(self@ =~= Set::empty());
            }
        }
        let zeros = m.leading_zeros() as u16;
        let d = 15 - zeros;
        proof {
            assert(1 <= d <= 9 && (m >> d) & 1 == 1) by (bit_vector)
                requires
                    d < 16,
                    m & 0xFC01 == 0,
                    (m >> d) & 1 != 0,
            ;
            assert forall|e: int| self@.contains(e) implies e <= d by {
                let e16 = e as u16;
                if e > d {
                    assert((m >> e16) & 1u16 == 0u16);
                }
            }
        }
        d
    }

    /// Whether `d` is a candidate.
    pub fn has_digit(self, d: u16) -> (b: bool)
        requires
            self.wf(),
            d < 16,
        ensures
            b == self@.contains(d as int),
    {
        let m = self.digits;
        proof {
            assert(d == 0 || d >= 10 ==> (m >> d) & 1 == 0) by (bit_vector)
                requires
                    d < 16,
                    m & 0xFC01 == 0,
            ;
        }
        (m >> d) & 0x1 == 1
    }

    /// Takes `d` out of the candidates; a digit that is no candidate changes nothing.
    pub fn remove_digit(&mut self, d: u16)
        requires
            old(self).wf(),
            d < 16,
        ensures
            final(self).wf(),
            final(self)@ == old(self)@.remove(d as int),
    {
        let m = self.digits;
        self.digits = m & !(1u16 << d);
        proof {
            assert((m & !(1u16 << d)) & 0xFC01 == 0) by (bit_vector)
                requires
                    m & 0xFC01 == 0,
                    d < 16,
            ;
            assert forall|e: int| 1 <= e <= 9 implies
                (#[trigger] bit(m & !(1u16 << d), e) <==> (bit(
                m,
                e,
            ) && e != d)) by {
                let e16 = e as u16;
                assert(((m & !(1u16 << d)) >> e16) & 1 == 1 <==> ((m >> e16) & 1 == 1 && e16 != d))
                    by (bit_vector)
                    requires
                        d < 16,
                        1 <= e16 <= 9,
                ;
            }
            assert(self@ =~= old(self)@.remove(d as int));
        }
    }
}

} // verus!
