use prime_trees::bit_array::BitArray;

#[test]
fn index() {
    let bit_array = BitArray::new_zeros(1000);
    assert_eq!(bit_array.get_unchecked(5), false);
}

#[test]
fn set() {
    let mut bit_array = BitArray::new_zeros(1000);
    assert_eq!(bit_array.set(2), true);
    assert_eq!(bit_array.get_unchecked(2), true);

    bit_array.set(65);
    assert_eq!(bit_array.get_unchecked(65), true);
}

#[test]
fn reset() {
    let mut bit_array = BitArray::new_zeros(1000);
    bit_array.reset(2);
    assert_eq!(bit_array.get_unchecked(2), false);
}

#[test]
fn set_value() {
    let mut bit_array = BitArray::new_zeros(1000);
    bit_array.set_value(2, true);
    assert_eq!(bit_array.get_unchecked(2), true);
}

#[test]
fn set_then_reset_each_index() {
    let mut bits = BitArray::new_zeros(200);
    for i in 0..200 {
        assert!(bits.set(i));
        assert_eq!(bits.get(i), Some(true));
        assert!(bits.reset(i));
        assert_eq!(bits.get(i), Some(false));
        assert!(bits.set_value(i, true));
        assert_eq!(bits.get(i), Some(true));
        assert!(bits.set_value(i, false));
        assert_eq!(bits.get(i), Some(false));
    }
}

#[test]
fn checked_accessors_use_word_capacity() {
    // 10 flags round up to one 64-bit word, so indices up to 63 are accepted.
    let mut bits = BitArray::new_zeros(10);
    assert_eq!(bits.set(63), true);
    assert_eq!(bits.get(63), Some(true));
    assert_eq!(bits.set(64), false);
    assert_eq!(bits.get(64), None);
}

#[test]
fn ones_and_iterator() {
    let bits = BitArray::new_ones(10);
    let mut iter = bits.iter();
    let mut count: usize = 0;
    while let Some(flag) = iter.next() {
        assert!(flag);
        count += 1;
    }
    // the cursor walks the whole word-aligned capacity
    assert_eq!(count, 64);
}
