use evm_utils::util::UtilFromInto;
use evm_utils::word::Word;

fn max_word() -> Word {
    Word { limb0: u64::MAX, limb1: u64::MAX, limb2: u64::MAX, limb3: u64::MAX }
}

#[test]
fn add_wraps_modulo_two_to_the_256() {
    assert_eq!(max_word().add(&Word::from_u64(1)), Word::zero());
    assert_eq!(max_word().add(&max_word()), Word { limb0: u64::MAX - 1, ..max_word() });
    assert_eq!(Word::from_u64(100).add(&Word::from_u64(100)), Word::from_u64(200));
    let carry = Word::from_u64(u64::MAX).add(&Word::from_u64(1));
    assert_eq!(carry, Word { limb0: 0, limb1: 1, limb2: 0, limb3: 0 });
}

#[test]
fn shr_divides_by_powers_of_two() {
    let v = Word::from_u64(0x1234);
    assert_eq!(v.shr(&Word::from_u64(4)), Word::from_u64(0x123));
    assert_eq!(v.shr(&Word::from_u64(0)), v);
    let top = Word { limb0: 0, limb1: 0, limb2: 0, limb3: 1 << 63 };
    assert_eq!(top.shr(&Word::from_u64(255)), Word::from_u64(1));
    assert_eq!(top.shr(&Word::from_u64(191)), Word { limb0: 0, limb1: 1, limb2: 0, limb3: 0 });
    assert_eq!(max_word().shr(&Word::from_u64(256)), Word::zero());
    assert_eq!(max_word().shr(&Word { limb0: 0, limb1: 1, limb2: 0, limb3: 0 }), Word::zero());
    assert_eq!(max_word().shr(&Word::from_u64(200)), Word::from_u64((1 << 56) - 1));
}

#[test]
fn byte_conversions() {
    assert_eq!(Word::from_be_bytes(&[]), Word::zero());
    assert_eq!(Word::from_be_bytes(&[0x01, 0x02]), Word::from_u64(0x0102));
    let mut bytes = vec![0u8; 32];
    bytes[31] = 200;
    assert_eq!(Word::from_u64(200).to_be_bytes(), bytes);
    assert_eq!(Word::from_be_bytes(&bytes), Word::from_u64(200));
    assert_eq!(max_word().to_be_bytes(), vec![0xff; 32]);
    let mut b = vec![0u8; 32];
    b[0] = 0x80;
    assert_eq!(Word::from_be_bytes(&b), Word { limb0: 0, limb1: 0, limb2: 0, limb3: 1 << 63 });
}

#[test]
fn usize_conversion_and_zero() {
    assert_eq!(Word::from_u64(42).to_usize(), Some(42));
    assert_eq!(Word { limb0: 0, limb1: 1, limb2: 0, limb3: 0 }.to_usize(), None);
    assert!(Word::zero().is_zero());
    assert!(!Word::from_u64(1).is_zero());
}

#[test]
fn words_order_by_value() {
    let high = Word { limb0: 0, limb1: 0, limb2: 0, limb3: 1 };
    let low = Word { limb0: u64::MAX, limb1: u64::MAX, limb2: u64::MAX, limb3: 0 };
    assert!(low < high);
    assert!(high > low);
    assert!(Word::from_u64(3) < Word::from_u64(4));
    assert!(Word::from_u64(4) <= Word::from_u64(4));
    assert_eq!(high.partial_cmp(&high), Some(std::cmp::Ordering::Equal));
    assert_eq!(Word { limb1: 1, ..Word::zero() }.partial_cmp(&Word::from_u64(u64::MAX)), Some(std::cmp::Ordering::Greater));
}

#[test]
fn util_conversions() {
    assert_eq!(<usize as UtilFromInto<Word>>::util_from(Word::from_u64(7)), Some(7usize));
    assert_eq!(<usize as UtilFromInto<Word>>::util_from(Word { limb2: 1, ..Word::zero() }), None);
    assert_eq!(<Word as UtilFromInto<usize>>::util_from(9usize), Some(Word::from_u64(9)));
    assert_eq!(UtilFromInto::<Word>::util_into(5usize), Some(Word::from_u64(5)));
    assert_eq!(UtilFromInto::<usize>::util_into(Word::from_u64(0)), Some(0usize));
    assert_eq!(UtilFromInto::<usize>::util_into(Word { limb3: 1, ..Word::zero() }), None::<usize>);
}
