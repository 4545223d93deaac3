//! The mathematical model of a bitfield: a finite sequence of bits, least
//! significant first, together with the functions the contracts are stated
//! over — the numeric value of a bit sequence, the ascending sequence of set
//! positions, and pointwise bitwise operations.

use vstd::prelude::*;
use vstd::arithmetic::div_mod::lemma_fundamental_div_mod;
use vstd::arithmetic::power2::{lemma2_to64, lemma_pow2_unfold, pow2};
use vstd::bits::lemma_u64_shr_is_div;

verus! {

/// The numeric value encoded by a bit sequence, least significant bit first.
pub open spec fn val_of(s: Seq<bool>) -> nat
    decreases s.len(),
{
    if s.len() == 0 {
        0
    } else {
        (if s[0] {
            1nat
        } else {
            0nat
        }) + 2 * val_of(s.skip(1))
    }
}

/// The positions of the set bits of `s`, in ascending order.
pub open spec fn ones(s: Seq<bool>) -> Seq<int>
    decreases s.len(),
{
    if s.len() == 0 {
        Seq::<int>::empty()
    } else {
        let rest = ones(s.skip(1)).map_values(|j: int| j + 1);
        if s[0] {
            seq![0int] + rest
        } else {
            rest
        }
    }
}

/// The sum of `2^k` over the entries `k` of `s` (negative entries count 0).
pub open spec fn pow2_sum(s: Seq<int>) -> nat
    decreases s.len(),
{
    if s.len() == 0 {
        0
    } else {
        (if s[0] >= 0 {
            pow2(s[0] as nat)
        } else {
            0nat
        }) + pow2_sum(s.skip(1))
    }
}

/// A width-`w` sequence with exactly one set bit, at `index`.
pub open spec fn single_at(w: nat, index: int) -> Seq<bool> {
    Seq::new(w, |i: int| i == index)
}

/// A width-`w` sequence with exactly one clear bit, at `index`.
pub open spec fn all_but(w: nat, index: int) -> Seq<bool> {
    Seq::new(w, |i: int| i != index)
}

/// The all-ones sequence of width `w`.
pub open spec fn all_set(w: nat) -> Seq<bool> {
    Seq::new(w, |i: int| true)
}

/// The all-zeroes sequence of width `w`.
pub open spec fn none_set(w: nat) -> Seq<bool> {
    Seq::new(w, |i: int| false)
}

/// Pointwise conjunction of two bit sequences of equal width.
pub open spec fn and_bits(a: Seq<bool>, b: Seq<bool>) -> Seq<bool> {
    Seq::new(a.len(), |i: int| a[i] && b[i])
}

/// Pointwise disjunction of two bit sequences of equal width.
pub open spec fn or_bits(a: Seq<bool>, b: Seq<bool>) -> Seq<bool> {
    Seq::new(a.len(), |i: int| a[i] || b[i])
}

/// Pointwise negation of a bit sequence.
pub open spec fn not_bits(a: Seq<bool>) -> Seq<bool> {
    Seq::new(a.len(), |i: int| !a[i])
}

/// The bits of `a` moved up by `n` positions; vacated positions are clear and
/// bits moved past the width are lost.
pub open spec fn shl_bits(a: Seq<bool>, n: int) -> Seq<bool> {
    Seq::new(a.len(), |i: int| n <= i && a[i - n])
}

/// The bits of `a` moved down by `n` positions; vacated positions are clear.
pub open spec fn shr_bits(a: Seq<bool>, n: int) -> Seq<bool> {
    Seq::new(a.len(), |i: int| if i + n < a.len() { a[i + n] } else { false })
}

/// The sequence `0, 1, ..., w - 1`.
pub open spec fn ascending_indices(w: nat) -> Seq<int> {
    Seq::new(w, |i: int| i)
}

/// Bit `i` of a 64-bit value.
pub open spec fn u64_bit(x: u64, i: int) -> bool {
    (x >> (i as u64)) & 1u64 == 1u64
}

/// The low `w` bits of a 64-bit value, least significant first.
pub open spec fn u64_bits(x: u64, w: nat) -> Seq<bool> {
    Seq::new(w, |i: int| u64_bit(x, i))
}

/// Every set position of `s` lies within the width of `s` and carries a set
/// bit.
pub proof fn lemma_ones_in_range(s: Seq<bool>)
    ensures
        forall|k: int| 0 <= k < ones(s).len() ==> 0 <= #[trigger] ones(s)[k] < s.len(),
        forall|k: int| 0 <= k < ones(s).len() ==> s[ones(s)[k]],
    decreases s.len(),
{
    if s.len() == 0 {
    } else {
        lemma_ones_in_range(s.skip(1));
        assert forall|k: int| 0 <= k < ones(s).len() implies 0 <= #[trigger] ones(s)[k] < s.len()
            && s[ones(s)[k]] by {
            if s[0] {
                if k == 0 {
                    assert(ones(s)[0] == 0);
                } else {
                    assert(ones(s)[k] == ones(s.skip(1))[k - 1] + 1);
                    assert(s.skip(1)[ones(s.skip(1))[k - 1]] == s[ones(s.skip(1))[k - 1] + 1]);
                }
            } else {
                assert(ones(s)[k] == ones(s.skip(1))[k] + 1);
                assert(s.skip(1)[ones(s.skip(1))[k]] == s[ones(s.skip(1))[k] + 1]);
            }
        }
    }
}

/// The set positions of a bit sequence are strictly increasing.
pub proof fn lemma_ones_ascending(s: Seq<bool>)
    ensures
        forall|j: int, k: int|
            0 <= j < k < ones(s).len() ==> #[trigger] ones(s)[j] < #[trigger] ones(s)[k],
    decreases s.len(),
{
    if s.len() == 0 {
    } else {
        lemma_ones_ascending(s.skip(1));
        lemma_ones_in_range(s.skip(1));
        assert forall|j: int, k: int| 0 <= j < k < ones(s).len() implies #[trigger] ones(s)[j]
            < #[trigger] ones(s)[k] by {
            if s[0] {
                if j == 0 {
                    assert(ones(s)[k] == ones(s.skip(1))[k - 1] + 1);
                } else {
                    assert(ones(s)[j] == ones(s.skip(1))[j - 1] + 1);
                    assert(ones(s)[k] == ones(s.skip(1))[k - 1] + 1);
                }
            } else {
                assert(ones(s)[j] == ones(s.skip(1))[j] + 1);
                assert(ones(s)[k] == ones(s.skip(1))[k] + 1);
            }
        }
    }
}

/// A bit sequence has no set positions exactly when all of its bits are
/// clear.
pub proof fn lemma_ones_empty(s: Seq<bool>)
    ensures
        (ones(s).len() == 0) <==> (forall|i: int| 0 <= i < s.len() ==> !s[i]),
    decreases s.len(),
{
    if s.len() == 0 {
    } else {
        lemma_ones_empty(s.skip(1));
        if s[0] {
            assert(s[0]);
        } else {
            assert forall|i: int| 0 <= i < s.skip(1).len() && s.skip(1)[i] implies exists|i2: int|
                0 <= i2 < s.len() && s[i2] by {
                assert(s[i + 1] == s.skip(1)[i]);
            }
            if forall|i: int| 0 <= i < s.len() ==> !s[i] {
                assert forall|i: int| 0 <= i < s.skip(1).len() implies !s.skip(1)[i] by {
                    assert(s.skip(1)[i] == s[i + 1]);
                }
            }
            if ones(s).len() == 0 {
                assert forall|i: int| 0 <= i < s.len() implies !s[i] by {
                    if i > 0 {
                        assert(s[i] == s.skip(1)[i - 1]);
                    }
                }
            }
        }
    }
}

/// Raising every entry of a sequence of exponents by one doubles the sum of
/// the corresponding powers of two.
pub proof fn lemma_pow2_sum_shift(t: Seq<int>)
    requires
        forall|k: int| 0 <= k < t.len() ==> t[k] >= 0,
    ensures
        pow2_sum(t.map_values(|j: int| j + 1)) == 2 * pow2_sum(t),
    decreases t.len(),
{
    if t.len() == 0 {
    } else {
        let m = t.map_values(|j: int| j + 1);
        assert(m.skip(1) =~= t.skip(1).map_values(|j: int| j + 1));
        assert forall|k: int| 0 <= k < t.skip(1).len() implies t.skip(1)[k] >= 0 by {
            assert(t.skip(1)[k] == t[k + 1]);
        }
        lemma_pow2_sum_shift(t.skip(1));
        lemma_pow2_unfold((t[0] + 1) as nat);
        assert(m[0] == t[0] + 1);
        assert(pow2_sum(m) == pow2((t[0] + 1) as nat) + pow2_sum(m.skip(1)));
    }
}

/// Summing `2^k` over the set positions of a bit sequence reconstructs the
/// value the sequence encodes.
pub proof fn lemma_val_pow2_sum(s: Seq<bool>)
    ensures
        pow2_sum(ones(s)) == val_of(s),
    decreases s.len(),
{
    if s.len() == 0 {
    } else {
        lemma_val_pow2_sum(s.skip(1));
        lemma_ones_in_range(s.skip(1));
        lemma_pow2_sum_shift(ones(s.skip(1)));
        let rest = ones(s.skip(1)).map_values(|j: int| j + 1);
        if s[0] {
            let whole = seq![0int] + rest;
            assert(whole.skip(1) =~= rest);
            assert(whole[0] == 0);
            lemma2_to64();
            assert(pow2_sum(whole) == pow2(0) + pow2_sum(rest));
        }
    }
}

/// A bit sequence with exactly one set bit has exactly that position as its
/// one set position.
pub proof fn lemma_ones_single(w: nat, index: int)
    requires
        0 <= index < w,
    ensures
        ones(single_at(w, index)) == seq![index],
    decreases w,
{
    let s = single_at(w, index);
    if index == 0 {
        assert(s[0]);
        assert(s.skip(1) =~= none_set((w - 1) as nat));
        lemma_ones_empty(none_set((w - 1) as nat));
        assert(ones(none_set((w - 1) as nat)) =~= Seq::<int>::empty());
        assert(ones(s) =~= seq![0int]);
    } else {
        assert(!s[0]);
        assert(s.skip(1) =~= single_at((w - 1) as nat, index - 1));
        lemma_ones_single((w - 1) as nat, index - 1);
        assert(ones(s) == ones(s.skip(1)).map_values(|j: int| j + 1));
        assert(ones(s) =~= seq![index]);
    }
}

/// The set positions of the all-ones sequence are all the indices, in order.
pub proof fn lemma_ones_all_set(w: nat)
    ensures
        ones(all_set(w)) == ascending_indices(w),
    decreases w,
{
    if w == 0 {
        assert(ones(all_set(0)) =~= ascending_indices(0));
    } else {
        assert(all_set(w)[0]);
        assert(all_set(w).skip(1) =~= all_set((w - 1) as nat));
        lemma_ones_all_set((w - 1) as nat);
        assert(ones(all_set(w)) =~= ascending_indices(w));
    }
}

/// A bit sequence is all ones exactly when its set positions are all the
/// indices of its width, in ascending order.
pub proof fn lemma_full_iff_all(s: Seq<bool>)
    ensures
        (s == all_set(s.len())) <==> (ones(s) == ascending_indices(s.len())),
{
    lemma_ones_all_set(s.len());
    lemma_ones_in_range(s);
    if s == all_set(s.len()) {
        assert(ones(s) == ascending_indices(s.len()));
    }
    if ones(s) == ascending_indices(s.len()) {
        assert forall|i: int| 0 <= i < s.len() implies s[i] by {
            assert(ones(s)[i] == i);
            assert(s[ones(s)[i]]);
        }
        assert(s =~= all_set(s.len()));
    }
}

/// The low `w` bits of a 64-bit value encode its remainder modulo `2^w`; in
/// particular they encode the value itself whenever it fits in `w` bits.
pub proof fn lemma_u64_bits_val(x: u64, w: nat)
    requires
        w <= 64,
        (x as nat) < pow2(w),
    ensures
        val_of(u64_bits(x, w)) == x as nat,
    decreases w,
{
    lemma2_to64();
    if w == 0 {
        assert(x == 0);
    } else {
        let s = u64_bits(x, w);
        assert((x >> 0u64) & 1 == x % 2) by (bit_vector);
        assert(s[0] == (x % 2 == 1));
        assert forall|i: int| 0 <= i < w - 1 implies s.skip(1)[i] == u64_bits(
            x >> 1u64,
            (w - 1) as nat,
        )[i] by {
            let j = i as u64;
            assert(((x >> 1u64) >> j) & 1 == (x >> ((j + 1) as u64)) & 1) by (bit_vector)
                requires
                    j < 63,
            ;
            assert(s.skip(1)[i] == u64_bit(x, i + 1));
        }
        assert(s.skip(1) =~= u64_bits(x >> 1u64, (w - 1) as nat));
        lemma_u64_shr_is_div(x, 1);
        lemma_pow2_unfold(w);
        lemma_fundamental_div_mod(x as int, 2);
        assert((x >> 1u64) as nat == x as nat / 2);
        assert(x as nat / 2 < pow2((w - 1) as nat));
        lemma_u64_bits_val(x >> 1u64, (w - 1) as nat);
        assert(val_of(s) == (if s[0] {
            1nat
        } else {
            0nat
        }) + 2 * val_of(s.skip(1)));
    }
}

/// The bits of a small literal (zero or one): bit 0 holds the literal and all
/// other bits are clear.
pub proof fn lemma_u64_bits_small(v: u64, w: nat)
    requires
        v <= 1,
        w <= 64,
    ensures
        v == 1 ==> u64_bits(v, w) == single_at(w, 0),
        v == 0 ==> u64_bits(v, w) == none_set(w),
{
    assert forall|i: int| 0 <= i < w implies u64_bit(v, i) == (i == 0 && v == 1) by {
        let j = i as u64;
        assert(((v >> j) & 1 == 1) <==> (j == 0 && v == 1)) by (bit_vector)
            requires
                v <= 1,
        ;
    }
    if v == 1 {
        assert(u64_bits(v, w) =~= single_at(w, 0));
    } else {
        assert(u64_bits(v, w) =~= none_set(w));
    }
}

/// Appending a clear bit at the top does not change the set positions.
pub proof fn lemma_ones_push_false(s: Seq<bool>)
    ensures
        ones(s.push(false)) == ones(s),
    decreases s.len(),
{
    if s.len() == 0 {
        reveal_with_fuel(ones, 2);
        assert(s.push(false).skip(1) =~= Seq::<bool>::empty());
        assert(ones(s.push(false)) =~= ones(s));
    } else {
        assert(s.push(false).skip(1) =~= s.skip(1).push(false));
        lemma_ones_push_false(s.skip(1));
        assert(ones(s.push(false)) == ones(s));
    }
}

} // verus!
