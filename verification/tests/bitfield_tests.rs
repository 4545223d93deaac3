use bitfield::bitfield::{BitField, BitFieldIterator, BitSized, DefaultBitField};

fn collect<T: BitField>(v: T) -> Vec<usize> {
    let mut it: BitFieldIterator<T> = v.iter();
    let mut out: Vec<usize> = Vec::new();
    while let Some(i) = it.next() {
        out.push(i);
    }
    out
}

#[test]
fn sizes_report_the_width() {
    assert_eq!(<u8 as BitField>::size(), 8);
    assert_eq!(<u16 as BitField>::size(), 16);
    assert_eq!(<u32 as BitField>::size(), 32);
    assert_eq!(<u64 as BitField>::size(), 64);
    assert_eq!(<u8 as BitSized>::width(), 8);
    assert_eq!(<u16 as BitSized>::width(), 16);
    assert_eq!(<u32 as BitSized>::width(), 32);
    assert_eq!(<u64 as BitSized>::width(), 64);
}

#[test]
fn one_at_sets_a_single_bit() {
    assert_eq!(u8::one_at(0), 1);
    assert_eq!(u8::one_at(7), 0x80);
    assert_eq!(u16::one_at(10), 1 << 10);
    assert_eq!(u32::one_at(3), 0b1000);
    assert_eq!(u64::one_at(63), 1 << 63);
}

#[test]
fn zero_at_clears_a_single_bit() {
    assert_eq!(u8::zero_at(7), 0x7F);
    assert_eq!(u16::zero_at(0), 0xFFFE);
    assert_eq!(u32::zero_at(3), 0xFFFF_FFF7);
    assert_eq!(u64::zero_at(1), !2);
}

#[test]
fn single_bit_round_trip_u8() {
    for i in 0..8 {
        assert_eq!(collect(u8::one_at(i)), vec![i]);
    }
}

#[test]
fn single_bit_round_trip_u16() {
    for i in 0..16 {
        assert_eq!(collect(u16::one_at(i)), vec![i]);
    }
}

#[test]
fn single_bit_round_trip_u32() {
    for i in 0..32 {
        assert_eq!(collect(u32::one_at(i)), vec![i]);
    }
}

#[test]
fn single_bit_round_trip_u64() {
    for i in 0..64 {
        assert_eq!(collect(u64::one_at(i)), vec![i]);
    }
}

#[test]
fn iteration_is_ascending() {
    let samples32: [u32; 6] = [0, 1, 37, 0x8000_0001, 0xDEAD_BEEF, u32::MAX];
    for v in samples32 {
        let bits = collect(v);
        assert!(bits.windows(2).all(|w| w[0] < w[1]));
    }
    let bits = collect(0xF0F0u16);
    assert_eq!(bits, vec![4, 5, 6, 7, 12, 13, 14, 15]);
    assert!(collect(u64::MAX).windows(2).all(|w| w[0] < w[1]));
    assert_eq!(collect(0xAAu8), vec![1, 3, 5, 7]);
}

#[test]
fn reconstruction_sums_back_to_the_value() {
    let samples8: [u8; 4] = [0, 1, 0xAA, u8::MAX];
    for v in samples8 {
        assert_eq!(collect(v).iter().map(|&i| 1u8 << i).fold(0, |x, y| x + y), v);
    }
    let samples16: [u16; 4] = [0, 0xF0F0, 12345, u16::MAX];
    for v in samples16 {
        assert_eq!(collect(v).iter().map(|&i| 1u16 << i).fold(0, |x, y| x + y), v);
    }
    let samples32: [u32; 5] = [0, 37, 0x8000_0000, 0xDEAD_BEEF, u32::MAX];
    for v in samples32 {
        assert_eq!(collect(v).iter().map(|&i| 1u32 << i).fold(0, |x, y| x + y), v);
    }
    let samples64: [u64; 4] = [0, 1 << 63, 0x0123_4567_89AB_CDEF, u64::MAX];
    for v in samples64 {
        assert_eq!(collect(v).iter().map(|&i| 1u64 << i).fold(0, |x, y| x + y), v);
    }
}

#[test]
fn fullness_identity() {
    assert!(0xFFu8.full());
    assert!(!0xFEu8.full());
    assert!(!0x7Fu8.full());
    assert_eq!(collect(0xFFu8), (0..8).collect::<Vec<usize>>());
    assert!(u16::MAX.full());
    assert!(u32::MAX.full());
    assert!(!0u32.full());
    assert!(u64::MAX.full());
    assert_eq!(collect(u64::MAX), (0..64).collect::<Vec<usize>>());
    assert_eq!(collect(u64::MAX).len(), <u64 as BitField>::size());
}

#[test]
fn complement_relation() {
    for i in 0..8 {
        assert_eq!(u8::zero_at(i) & u8::one_at(i), 0);
        assert_eq!(u8::zero_at(i) | u8::one_at(i), u8::MAX);
    }
    for i in 0..32 {
        assert_eq!(u32::zero_at(i) & u32::one_at(i), 0);
        assert_eq!(u32::zero_at(i) | u32::one_at(i), u32::MAX);
    }
    for i in 0..64 {
        assert_eq!(u64::zero_at(i) & u64::one_at(i), 0);
        assert_eq!(u64::zero_at(i) | u64::one_at(i), u64::MAX);
    }
}

#[test]
fn empty_value_iterates_nothing() {
    assert_eq!(collect(0u8), Vec::<usize>::new());
    assert_eq!(collect(0u16), Vec::<usize>::new());
    assert_eq!(collect(0u32), Vec::<usize>::new());
    assert_eq!(collect(0u64), Vec::<usize>::new());
}

#[test]
fn exhausted_iterator_stays_exhausted() {
    let mut it = 0b100u32.iter();
    assert_eq!(it.next(), Some(2));
    assert_eq!(it.next(), None);
    assert_eq!(it.next(), None);
}

#[test]
fn concrete_example_bit_three() {
    let one = u32::one_at(3);
    assert_eq!(one, 0b1000);
    assert_eq!(collect(one), vec![3]);
    let zero = u32::zero_at(3);
    assert_eq!(zero, 0b1111_1111_1111_1111_1111_1111_1111_0111);
    assert!((one | zero).full());
}

#[test]
fn concrete_example_decimal_thirty_seven() {
    assert_eq!(collect(37u32), vec![0, 2, 5]);
}

#[test]
fn default_bitfield_is_thirty_two_bits() {
    assert_eq!(<DefaultBitField as BitField>::size(), 32);
    let v: DefaultBitField = 37;
    assert_eq!(collect(v), vec![0, 2, 5]);
}

#[test]
fn primitive_ops_act_bitwise() {
    assert_eq!(<u8 as BitSized>::from_bit(0), 0);
    assert_eq!(<u8 as BitSized>::from_bit(1), 1);
    assert_eq!(<u64 as BitSized>::from_bit(1), 1);
    assert_eq!(0xF0u8.band(0x3C), 0x30);
    assert_eq!(0xF0u8.bor(0x3C), 0xFC);
    assert_eq!(0xF0u8.bnot(), 0x0F);
    assert_eq!(0x01u8.shl(4), 0x10);
    assert_eq!(0x80u8.shr(7), 0x01);
    assert_eq!(0xFFFF_0000u32.shr(16), 0x0000_FFFF);
    assert!(5u32.eq_bits(5));
    assert!(!5u32.eq_bits(4));
}
