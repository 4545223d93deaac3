//! Definitions of bitfield things for hashmap neighbourhoods.

use vstd::prelude::*;
use vstd::arithmetic::power2::lemma2_to64;
use crate::bitseq::{
    all_but, all_set, and_bits, ascending_indices, lemma_full_iff_all, lemma_ones_ascending,
    lemma_ones_empty, lemma_ones_in_range, lemma_ones_push_false, lemma_ones_single,
    lemma_u64_bits_small, lemma_u64_bits_val, lemma_val_pow2_sum, none_set, not_bits, ones, val_of,
    or_bits, pow2_sum, shl_bits, shr_bits, single_at, u64_bit, u64_bits,
};

verus! {

/// Helper trait to reduce code duplication when implementing `BitField` for
/// integer types: the primitive capability a fixed-width unsigned integer
/// offers, namely a constant width together with the bitwise, shift,
/// comparison and from-small-integer operations, each specified against the
/// sequence of bits of the value.
pub trait BitSized: Sized + Copy {
    /// The bits of the value, least significant first.
    spec fn bits(&self) -> Seq<bool>;

    /// The fixed bit width of the type.
    spec fn spec_size() -> nat;

    /// Basic facts every value of the type enjoys: the bit sequence has
    /// exactly the advertised width, the width is between one and eight
    /// bytes, and the bits encode the numeric value of the field.
    proof fn bits_invariant(&self)
        ensures
            self.bits().len() == Self::spec_size(),
            8 <= Self::spec_size() <= 64,
            self.as_nat() == val_of(self.bits()),
    ;

    /// The numeric value of the field.
    spec fn as_nat(&self) -> nat;

    /// Returns how many bits are in the type.
    fn width() -> (r: usize)
        ensures
            r == Self::spec_size(),
    ;

    /// The value whose bit 0 equals the given small literal (zero or one) and
    /// whose other bits are clear.
    fn from_bit(v: u8) -> (r: Self)
        requires
            v <= 1,
        ensures
            v == 1 ==> r.bits() == single_at(Self::spec_size(), 0),
            v == 0 ==> r.bits() == none_set(Self::spec_size()),
    ;

    /// Bitwise AND.
    fn band(self, rhs: Self) -> (r: Self)
        ensures
            r.bits() == and_bits(self.bits(), rhs.bits()),
    ;

    /// Bitwise OR.
    fn bor(self, rhs: Self) -> (r: Self)
        ensures
            r.bits() == or_bits(self.bits(), rhs.bits()),
    ;

    /// Bitwise complement.
    fn bnot(self) -> (r: Self)
        ensures
            r.bits() == not_bits(self.bits()),
    ;

    /// Shift left by `n` positions.
    fn shl(self, n: usize) -> (r: Self)
        requires
            n < Self::spec_size(),
        ensures
            r.bits() == shl_bits(self.bits(), n as int),
    ;

    /// Shift right by `n` positions.
    fn shr(self, n: usize) -> (r: Self)
        requires
            n < Self::spec_size(),
        ensures
            r.bits() == shr_bits(self.bits(), n as int),
    ;

    /// Equality test: two values of the type are equal exactly when their
    /// bits agree.
    fn eq_bits(self, rhs: Self) -> (r: bool)
        ensures
            r == (self.bits() == rhs.bits()),
    ;
}

impl BitSized for u32 {
    open spec fn bits(&self) -> Seq<bool> {
        u64_bits(*self as u64, 32)
    }

    open spec fn spec_size() -> nat {
        32
    }

    open spec fn as_nat(&self) -> nat {
        *self as nat
    }

    proof fn bits_invariant(&self) {
        lemma2_to64();
        lemma_u64_bits_val(*self as u64, 32);
    }

    fn width() -> (r: usize) {
        32
    }

    fn from_bit(v: u8) -> (r: u32) {
        proof {
            lemma_u64_bits_small(v as u64, 32);
        }
        v as u32
    }

    fn band(self, rhs: u32) -> (r: u32) {
        let r = self & rhs;
        proof {
            assert forall|i: int| 0 <= i < 32 implies #[trigger] u64_bit(r as u64, i) == (
            u64_bit(self as u64, i) && u64_bit(rhs as u64, i)) by {
                let j = i as u64;
                assert(((((self & rhs) as u64) >> j) & 1 == 1) <==> ((((self as u64) >> j) & 1
                    == 1) && (((rhs as u64) >> j) & 1 == 1))) by (bit_vector);
            }
            assert(r.bits() =~= and_bits(self.bits(), rhs.bits()));
        }
        r
    }

    fn bor(self, rhs: u32) -> (r: u32) {
        let r = self | rhs;
        proof {
            assert forall|i: int| 0 <= i < 32 implies #[trigger] u64_bit(r as u64, i) == (
            u64_bit(self as u64, i) || u64_bit(rhs as u64, i)) by {
                let j = i as u64;
                assert(((((self | rhs) as u64) >> j) & 1 == 1) <==> ((((self as u64) >> j) & 1
                    == 1) || (((rhs as u64) >> j) & 1 == 1))) by (bit_vector);
            }
            assert(r.bits() =~= or_bits(self.bits(), rhs.bits()));
        }
        r
    }

    fn bnot(self) -> (r: u32) {
        let r = !self;
        proof {
            assert forall|i: int| 0 <= i < 32 implies #[trigger] u64_bit(r as u64, i)
                == !u64_bit(self as u64, i) by {
                let j = i as u64;
                assert(((((!self) as u64) >> j) & 1 == 1) <==> !(((self as u64) >> j) & 1 == 1))
                    by (bit_vector)
                    requires
                        j < 32,
                ;
            }
            assert(r.bits() =~= not_bits(self.bits()));
        }
        r
    }

    fn shl(self, n: usize) -> (r: u32) {
        let m = n as u32;
        let r = self << m;
        proof {
            assert forall|i: int| 0 <= i < 32 implies #[trigger] u64_bit(r as u64, i) == (
            m <= i && u64_bit(self as u64, i - m)) by {
                let j = i as u64;
                assert(((((self << m) as u64) >> j) & 1 == 1) <==> (m <= j && (((self as u64) >> (
                j - m) as u64) & 1 == 1))) by (bit_vector)
                    requires
                        j < 32,
                        m < 32,
                ;
            }
            assert(r.bits() =~= shl_bits(self.bits(), n as int));
        }
        r
    }

    fn shr(self, n: usize) -> (r: u32) {
        let m = n as u32;
        let r = self >> m;
        proof {
            assert forall|i: int| 0 <= i < 32 implies #[trigger] u64_bit(r as u64, i) == (
            i + m < 32 && u64_bit(self as u64, i + m)) by {
                let j = i as u64;
                assert(((((self >> m) as u64) >> j) & 1 == 1) <==> (j + m < 32 && (((
                self as u64) >> (j + m) as u64) & 1 == 1))) by (bit_vector)
                    requires
                        j < 32,
                        m < 32,
                ;
            }
            assert(r.bits() =~= shr_bits(self.bits(), n as int));
        }
        r
    }

    fn eq_bits(self, rhs: u32) -> (r: bool) {
        proof {
            self.bits_invariant();
            rhs.bits_invariant();
        }
        self == rhs
    }
}

impl BitSized for u16 {
    open spec fn bits(&self) -> Seq<bool> {
        u64_bits(*self as u64, 16)
    }

    open spec fn spec_size() -> nat {
        16
    }

    open spec fn as_nat(&self) -> nat {
        *self as nat
    }

    proof fn bits_invariant(&self) {
        lemma2_to64();
        lemma_u64_bits_val(*self as u64, 16);
    }

    fn width() -> (r: usize) {
        16
    }

    fn from_bit(v: u8) -> (r: u16) {
        proof {
            lemma_u64_bits_small(v as u64, 16);
        }
        v as u16
    }

    fn band(self, rhs: u16) -> (r: u16) {
        let r = self & rhs;
        proof {
            assert forall|i: int| 0 <= i < 16 implies #[trigger] u64_bit(r as u64, i) == (
            u64_bit(self as u64, i) && u64_bit(rhs as u64, i)) by {
                let j = i as u64;
                assert(((((self & rhs) as u64) >> j) & 1 == 1) <==> ((((self as u64) >> j) & 1
                    == 1) && (((rhs as u64) >> j) & 1 == 1))) by (bit_vector);
            }
            assert(r.bits() =~= and_bits(self.bits(), rhs.bits()));
        }
        r
    }

    fn bor(self, rhs: u16) -> (r: u16) {
        let r = self | rhs;
        proof {
            assert forall|i: int| 0 <= i < 16 implies #[trigger] u64_bit(r as u64, i) == (
            u64_bit(self as u64, i) || u64_bit(rhs as u64, i)) by {
                let j = i as u64;
                assert(((((self | rhs) as u64) >> j) & 1 == 1) <==> ((((self as u64) >> j) & 1
                    == 1) || (((rhs as u64) >> j) & 1 == 1))) by (bit_vector);
            }
            assert(r.bits() =~= or_bits(self.bits(), rhs.bits()));
        }
        r
    }

    fn bnot(self) -> (r: u16) {
        let r = !self;
        proof {
            assert forall|i: int| 0 <= i < 16 implies #[trigger] u64_bit(r as u64, i)
                == !u64_bit(self as u64, i) by {
                let j = i as u64;
                assert(((((!self) as u64) >> j) & 1 == 1) <==> !(((self as u64) >> j) & 1 == 1))
                    by (bit_vector)
                    requires
                        j < 16,
                ;
            }
            assert(r.bits() =~= not_bits(self.bits()));
        }
        r
    }

    fn shl(self, n: usize) -> (r: u16) {
        let m = n as u16;
        let r = self << m;
        proof {
            assert forall|i: int| 0 <= i < 16 implies #[trigger] u64_bit(r as u64, i) == (
            m <= i && u64_bit(self as u64, i - m)) by {
                let j = i as u64;
                assert(((((self << m) as u64) >> j) & 1 == 1) <==> (m <= j && (((self as u64) >> (
                j - m) as u64) & 1 == 1))) by (bit_vector)
                    requires
                        j < 16,
                        m < 16,
                ;
            }
            assert(r.bits() =~= shl_bits(self.bits(), n as int));
        }
        r
    }

    fn shr(self, n: usize) -> (r: u16) {
        let m = n as u16;
        let r = self >> m;
        proof {
            assert forall|i: int| 0 <= i < 16 implies #[trigger] u64_bit(r as u64, i) == (
            i + m < 16 && u64_bit(self as u64, i + m)) by {
                let j = i as u64;
                assert(((((self >> m) as u64) >> j) & 1 == 1) <==> (j + m < 16 && (((
                self as u64) >> (j + m) as u64) & 1 == 1))) by (bit_vector)
                    requires
                        j < 16,
                        m < 16,
                ;
            }
            assert(r.bits() =~= shr_bits(self.bits(), n as int));
        }
        r
    }

    fn eq_bits(self, rhs: u16) -> (r: bool) {
        proof {
            self.bits_invariant();
            rhs.bits_invariant();
        }
        self == rhs
    }
}

impl BitSized for u8 {
    open spec fn bits(&self) -> Seq<bool> {
        u64_bits(*self as u64, 8)
    }

    open spec fn spec_size() -> nat {
        8
    }

    open spec fn as_nat(&self) -> nat {
        *self as nat
    }

    proof fn bits_invariant(&self) {
        lemma2_to64();
        lemma_u64_bits_val(*self as u64, 8);
    }

    fn width() -> (r: usize) {
        8
    }

    fn from_bit(v: u8) -> (r: u8) {
        proof {
            lemma_u64_bits_small(v as u64, 8);
        }
        v as u8
    }

    fn band(self, rhs: u8) -> (r: u8) {
        let r = self & rhs;
        proof {
            assert forall|i: int| 0 <= i < 8 implies #[trigger] u64_bit(r as u64, i) == (
            u64_bit(self as u64, i) && u64_bit(rhs as u64, i)) by {
                let j = i as u64;
                assert(((((self & rhs) as u64) >> j) & 1 == 1) <==> ((((self as u64) >> j) & 1
                    == 1) && (((rhs as u64) >> j) & 1 == 1))) by (bit_vector);
            }
            assert(r.bits() =~= and_bits(self.bits(), rhs.bits()));
        }
        r
    }

    fn bor(self, rhs: u8) -> (r: u8) {
        let r = self | rhs;
        proof {
            assert forall|i: int| 0 <= i < 8 implies #[trigger] u64_bit(r as u64, i) == (
            u64_bit(self as u64, i) || u64_bit(rhs as u64, i)) by {
                let j = i as u64;
                assert(((((self | rhs) as u64) >> j) & 1 == 1) <==> ((((self as u64) >> j) & 1
                    == 1) || (((rhs as u64) >> j) & 1 == 1))) by (bit_vector);
            }
            assert(r.bits() =~= or_bits(self.bits(), rhs.bits()));
        }
        r
    }

    fn bnot(self) -> (r: u8) {
        let r = !self;
        proof {
            assert forall|i: int| 0 <= i < 8 implies #[trigger] u64_bit(r as u64, i)
                == !u64_bit(self as u64, i) by {
                let j = i as u64;
                assert(((((!self) as u64) >> j) & 1 == 1) <==> !(((self as u64) >> j) & 1 == 1))
                    by (bit_vector)
                    requires
                        j < 8,
                ;
            }
            assert(r.bits() =~= not_bits(self.bits()));
        }
        r
    }

    fn shl(self, n: usize) -> (r: u8) {
        let m = n as u8;
        let r = self << m;
        proof {
            assert forall|i: int| 0 <= i < 8 implies #[trigger] u64_bit(r as u64, i) == (
            m <= i && u64_bit(self as u64, i - m)) by {
                let j = i as u64;
                assert(((((self << m) as u64) >> j) & 1 == 1) <==> (m <= j && (((self as u64) >> (
                j - m) as u64) & 1 == 1))) by (bit_vector)
                    requires
                        j < 8,
                        m < 8,
                ;
            }
            assert(r.bits() =~= shl_bits(self.bits(), n as int));
        }
        r
    }

    fn shr(self, n: usize) -> (r: u8) {
        let m = n as u8;
        let r = self >> m;
        proof {
            assert forall|i: int| 0 <= i < 8 implies #[trigger] u64_bit(r as u64, i) == (
            i + m < 8 && u64_bit(self as u64, i + m)) by {
                let j = i as u64;
                assert(((((self >> m) as u64) >> j) & 1 == 1) <==> (j + m < 8 && (((
                self as u64) >> (j + m) as u64) & 1 == 1))) by (bit_vector)
                    requires
                        j < 8,
                        m < 8,
                ;
            }
            assert(r.bits() =~= shr_bits(self.bits(), n as int));
        }
        r
    }

    fn eq_bits(self, rhs: u8) -> (r: bool) {
        proof {
            self.bits_invariant();
            rhs.bits_invariant();
        }
        self == rhs
    }
}

impl BitSized for u64 {
    open spec fn bits(&self) -> Seq<bool> {
        u64_bits(*self as u64, 64)
    }

    open spec fn spec_size() -> nat {
        64
    }

    open spec fn as_nat(&self) -> nat {
        *self as nat
    }

    proof fn bits_invariant(&self) {
        lemma2_to64();
        lemma_u64_bits_val(*self as u64, 64);
    }

    fn width() -> (r: usize) {
        64
    }

    fn from_bit(v: u8) -> (r: u64) {
        proof {
            lemma_u64_bits_small(v as u64, 64);
        }
        v as u64
    }

    fn band(self, rhs: u64) -> (r: u64) {
        let r = self & rhs;
        proof {
            assert forall|i: int| 0 <= i < 64 implies #[trigger] u64_bit(r as u64, i) == (
            u64_bit(self as u64, i) && u64_bit(rhs as u64, i)) by {
                let j = i as u64;
                assert(((((self & rhs) as u64) >> j) & 1 == 1) <==> ((((self as u64) >> j) & 1
                    == 1) && (((rhs as u64) >> j) & 1 == 1))) by (bit_vector);
            }
            assert(r.bits() =~= and_bits(self.bits(), rhs.bits()));
        }
        r
    }

    fn bor(self, rhs: u64) -> (r: u64) {
        let r = self | rhs;
        proof {
            assert forall|i: int| 0 <= i < 64 implies #[trigger] u64_bit(r as u64, i) == (
            u64_bit(self as u64, i) || u64_bit(rhs as u64, i)) by {
                let j = i as u64;
                assert(((((self | rhs) as u64) >> j) & 1 == 1) <==> ((((self as u64) >> j) & 1
                    == 1) || (((rhs as u64) >> j) & 1 == 1))) by (bit_vector);
            }
            assert(r.bits() =~= or_bits(self.bits(), rhs.bits()));
        }
        r
    }

    fn bnot(self) -> (r: u64) {
        let r = !self;
        proof {
            assert forall|i: int| 0 <= i < 64 implies #[trigger] u64_bit(r as u64, i)
                == !u64_bit(self as u64, i) by {
                let j = i as u64;
                assert(((((!self) as u64) >> j) & 1 == 1) <==> !(((self as u64) >> j) & 1 == 1))
                    by (bit_vector)
                    requires
                        j < 64,
                ;
            }
            assert(r.bits() =~= not_bits(self.bits()));
        }
        r
    }

    fn shl(self, n: usize) -> (r: u64) {
        let m = n as u64;
        let r = self << m;
        proof {
            assert forall|i: int| 0 <= i < 64 implies #[trigger] u64_bit(r as u64, i) == (
            m <= i && u64_bit(self as u64, i - m)) by {
                let j = i as u64;
                assert(((((self << m) as u64) >> j) & 1 == 1) <==> (m <= j && (((self as u64) >> (
                j - m) as u64) & 1 == 1))) by (bit_vector)
                    requires
                        j < 64,
                        m < 64,
                ;
            }
            assert(r.bits() =~= shl_bits(self.bits(), n as int));
        }
        r
    }

    fn shr(self, n: usize) -> (r: u64) {
        let m = n as u64;
        let r = self >> m;
        proof {
            assert forall|i: int| 0 <= i < 64 implies #[trigger] u64_bit(r as u64, i) == (
            i + m < 64 && u64_bit(self as u64, i + m)) by {
                let j = i as u64;
                assert(((((self >> m) as u64) >> j) & 1 == 1) <==> (j + m < 64 && (((
                self as u64) >> (j + m) as u64) & 1 == 1))) by (bit_vector)
                    requires
                        j < 64,
                        m < 64,
                ;
            }
            assert(r.bits() =~= shr_bits(self.bits(), n as int));
        }
        r
    }

    fn eq_bits(self, rhs: u64) -> (r: bool) {
        proof {
            self.bits_invariant();
            rhs.bits_invariant();
        }
        self == rhs
    }
}

/// A bit field trait for use in hashmap buckets: what a value must support to
/// serve as a neighbourhood occupancy bitmap. Every type with the `BitSized`
/// capability obtains all of these operations at once through the generic
/// derivation below, identically for every supported width.
pub trait BitField: BitSized {
    /// Should return a constant value describing how big the bitfield of this
    /// type is.
    fn size() -> (r: usize)
        ensures
            r == Self::spec_size(),
    ;

    /// Should return a bitfield that is all zeroes, except for a single one at
    /// a given index.
    fn one_at(index: usize) -> (r: Self)
        requires
            index < Self::spec_size(),
        ensures
            r.bits() == single_at(Self::spec_size(), index as int),
    ;

    /// Should return a bitfield that is all ones, except for a single zero at
    /// a given index.
    fn zero_at(index: usize) -> (r: Self)
        requires
            index < Self::spec_size(),
        ensures
            r.bits() == all_but(Self::spec_size(), index as int),
    ;

    /// Return an iterator that iterates through the bitfield, returning the
    /// indexes within the bitfield that have 1s in them, in order from least
    /// significant to most significant. The bitfield itself is copied and
    /// never mutated.
    fn iter(&self) -> (r: BitFieldIterator<Self>)
        ensures
            r.0 == *self,
            r.1 == 0,
            r.wf(),
            r.future() == ones(self.bits()),
    ;

    /// Is the bitfield currently full?
    fn full(&self) -> (r: bool)
        ensures
            r == (self.bits() == all_set(Self::spec_size())),
    ;
}

/// An iterator over the active bits in a bitfield. It owns a copy of the
/// remaining bits together with a cursor: the indices it has yet to produce
/// are the set positions of the remaining bits, offset by the cursor.
pub struct BitFieldIterator<T>(pub T, pub usize);

impl<T: BitSized> BitFieldIterator<T> {
    /// The indices this iterator has yet to produce, in ascending order.
    pub open spec fn future(self) -> Seq<int> {
        ones(self.0.bits()).map_values(|j: int| j + self.1 as int)
    }

    /// Every index this iterator has yet to produce leaves room for the
    /// cursor increment that follows it.
    pub open spec fn wf(self) -> bool {
        forall|k: int| 0 <= k < self.future().len() ==> #[trigger] self.future()[k] < usize::MAX
    }

    /// Produce the index of the next set bit, or `None` once no set bits
    /// remain: the first pending index comes out and the rest stay pending.
    pub fn next(&mut self) -> (r: Option<usize>)
        requires
            old(self).wf(),
        ensures
            final(self).wf(),
            match r {
                Option::None => old(self).future().len() == 0 && final(self).future().len() == 0,
                Option::Some(idx) => old(self).future().len() > 0 && idx as int == old(
                self).future()[0] && final(self).future() == old(self).future().skip(1),
            },
    {
        proof {
            self.0.bits_invariant();
            lemma_ones_in_range(self.0.bits());
            lemma_ones_empty(self.0.bits());
        }
        if self.0.eq_bits(T::from_bit(0)) {
            proof {
                assert forall|i: int| 0 <= i < self.0.bits().len() implies !self.0.bits()[i] by {
                    assert(self.0.bits()[i] == none_set(T::spec_size())[i]);
                }
            }
            Option::None
        } else {
            proof {
                if ones(self.0.bits()).len() == 0 {
                    assert(self.0.bits() =~= none_set(T::spec_size()));
                }
            }
            while self.0.band(T::from_bit(1)).eq_bits(T::from_bit(0))
                invariant
                    8 <= T::spec_size() <= 64,
                    self.0.bits().len() == T::spec_size(),
                    ones(self.0.bits()).len() > 0,
                    self.future() == old(self).future(),
                    self.wf(),
                decreases ones(self.0.bits())[0],
            {
                proof {
                    let s = self.0.bits();
                    assert(and_bits(s, single_at(T::spec_size(), 0))[0]
                        == none_set(T::spec_size())[0]);
                    assert(!s[0]);
                    lemma_ones_in_range(s.skip(1));
                    assert(ones(s) == ones(s.skip(1)).map_values(|j: int| j + 1));
                    assert(ones(s)[0] == ones(s.skip(1))[0] + 1);
                    assert(self.future()[0] == ones(s)[0] + self.1 as int);
                }
                let ghost prev = *self;
                let shifted = self.0.shr(1);
                proof {
                    let s = prev.0.bits();
                    assert(shifted.bits() =~= s.skip(1).push(false));
                    lemma_ones_push_false(s.skip(1));
                    assert(ones(shifted.bits()) == ones(s.skip(1)));
                }
                self.0 = shifted;
                self.1 = self.1 + 1;
                proof {
                    assert(self.future() =~= prev.future());
                }
            }
            proof {
                let s = self.0.bits();
                if !s[0] {
                    assert(and_bits(s, single_at(T::spec_size(), 0))
                        =~= none_set(T::spec_size()));
                }
                assert(s[0]);
                lemma_ones_in_range(s.skip(1));
                assert(ones(s) == seq![0int] + ones(s.skip(1)).map_values(|j: int| j + 1));
                assert(ones(s)[0] == 0);
                assert(self.future()[0] == self.1 as int);
            }
            let ghost prev = *self;
            let idx = self.1;
            let shifted = self.0.shr(1);
            proof {
                let s = prev.0.bits();
                assert(shifted.bits() =~= s.skip(1).push(false));
                lemma_ones_push_false(s.skip(1));
                assert(ones(shifted.bits()) == ones(s.skip(1)));
            }
            self.0 = shifted;
            self.1 = idx + 1;
            proof {
                assert(self.future() =~= prev.future().skip(1));
                assert forall|k: int| 0 <= k < self.future().len() implies #[trigger] self.future()[k]
                    < usize::MAX by {
                    assert(self.future()[k] == prev.future()[k + 1]);
                }
            }
            Option::Some(idx)
        }
    }
}

impl<T: BitSized> BitField for T {
    fn size() -> (r: usize) {
        <T as BitSized>::width()
    }

    fn one_at(index: usize) -> (r: Self) {
        let one = T::from_bit(1);
        let r = one.shl(index);
        proof {
            assert(r.bits() =~= single_at(Self::spec_size(), index as int));
        }
        r
    }

    fn zero_at(index: usize) -> (r: Self) {
        let one = Self::one_at(index);
        let r = one.bnot();
        proof {
            assert(r.bits() =~= all_but(Self::spec_size(), index as int));
        }
        r
    }

    fn iter(&self) -> (r: BitFieldIterator<Self>) {
        proof {
            self.bits_invariant();
            lemma_ones_in_range(self.bits());
        }
        let r = BitFieldIterator(*self, 0);
        proof {
            assert(r.future() =~= ones(self.bits()));
        }
        r
    }

    fn full(&self) -> (r: bool) {
        proof {
            self.bits_invariant();
        }
        let all = Self::one_at(0).bor(Self::zero_at(0));
        proof {
            assert(all.bits() =~= all_set(Self::spec_size()));
        }
        self.eq_bits(all)
    }
}

/// The default bitfield type.
pub type DefaultBitField = u32;

/// Single-bit round-trip: for every valid index, the bitfield that `one_at`
/// returns iterates to exactly the one-element sequence holding that index.
pub proof fn lemma_single_bit_round_trip<T: BitField>(one: T, index: int)
    requires
        0 <= index < T::spec_size(),
        one.bits() == single_at(T::spec_size(), index),
    ensures
        ones(one.bits()) == seq![index],
{
    lemma_ones_single(T::spec_size(), index);
}

/// Ascending order: the sequence of indices any bitfield value iterates is
/// strictly increasing.
pub proof fn lemma_iteration_ascending<T: BitSized>(v: T)
    ensures
        forall|j: int, k: int|
            0 <= j < k < ones(v.bits()).len() ==> #[trigger] ones(v.bits())[j] < #[trigger] ones(
            v.bits())[k],
{
    lemma_ones_ascending(v.bits());
}

/// Reconstruction: summing `2^index` over every index a bitfield iterates
/// gives back the numeric value of the bitfield exactly.
pub proof fn lemma_reconstruction<T: BitSized>(v: T)
    ensures
        pow2_sum(ones(v.bits())) == v.as_nat(),
{
    v.bits_invariant();
    lemma_val_pow2_sum(v.bits());
}

/// Fullness identity: a bitfield is full exactly when it iterates `size()`
/// indices, namely every index of its width in ascending order.
pub proof fn lemma_fullness_identity<T: BitSized>(v: T)
    ensures
        (v.bits() == all_set(T::spec_size())) <==> (ones(v.bits())
            == ascending_indices(T::spec_size())),
{
    v.bits_invariant();
    lemma_full_iff_all(v.bits());
}

/// Complement relation: at any valid index, the single-one and single-zero
/// bitfields AND to the all-zero value and OR to the all-ones value.
pub proof fn lemma_complement_relation<T: BitField>(one: T, zero: T, index: int)
    requires
        0 <= index < T::spec_size(),
        one.bits() == single_at(T::spec_size(), index),
        zero.bits() == all_but(T::spec_size(), index),
    ensures
        and_bits(zero.bits(), one.bits()) == none_set(T::spec_size()),
        or_bits(zero.bits(), one.bits()) == all_set(T::spec_size()),
{
    assert(and_bits(zero.bits(), one.bits()) =~= none_set(T::spec_size()));
    assert(or_bits(zero.bits(), one.bits()) =~= all_set(
        T::spec_size(),
    ));
}

/// Empty case: the all-zero bitfield iterates to the empty sequence.
pub proof fn lemma_empty_iteration<T: BitSized>(v: T)
    requires
        v.bits() == none_set(T::spec_size()),
    ensures
        ones(v.bits()) == Seq::<int>::empty(),
{
    lemma_ones_empty(v.bits());
    assert forall|i: int| 0 <= i < v.bits().len() implies !v.bits()[i] by {
        assert(v.bits()[i] == none_set(T::spec_size())[i]);
    }
    assert(ones(v.bits()) =~= Seq::<int>::empty());
}

} // verus!
