use udp_hole_punching::file_transfer::bit_array::BitArray;

#[test]
fn new_array_has_every_bit_clear() {
    let arr = BitArray::new(10);
    assert_eq!(arr.len(), 10);
    for i in 0..10 {
        assert!(!arr.is_set(i));
    }
    assert_eq!(arr.collect_unset(), vec![0, 1, 2, 3, 4, 5, 6, 7, 8, 9]);
}

#[test]
fn empty_array_has_nothing_unset() {
    let arr = BitArray::new(0);
    assert_eq!(arr.len(), 0);
    assert_eq!(arr.collect_unset(), Vec::<u32>::new());
    let arr = BitArray::default();
    assert_eq!(arr.len(), 0);
    assert_eq!(arr.collect_unset(), Vec::<u32>::new());
}

#[test]
fn set_touches_one_bit() {
    let mut arr = BitArray::new(130);
    arr.set(64);
    for i in 0..130 {
        assert_eq!(arr.is_set(i), i == 64);
    }
    arr.set(64);
    assert!(arr.is_set(64));
    assert_eq!(arr.collect_unset().len(), 129);
}

#[test]
fn collect_unset_is_the_sorted_complement() {
    let mut arr = BitArray::new(130);
    let marks = [129u32, 0, 63, 64, 65, 127, 128, 5, 5];
    for m in marks {
        arr.set(m);
    }
    let expected: Vec<u32> = (0..130).filter(|i| !marks.contains(i)).collect();
    assert_eq!(arr.collect_unset(), expected);
}

#[test]
fn full_words_are_skipped_and_padding_is_not_reported() {
    let mut arr = BitArray::new(64);
    for i in 0..64 {
        arr.set(i);
    }
    assert_eq!(arr.collect_unset(), Vec::<u32>::new());
    let mut arr = BitArray::new(65);
    for i in 0..64 {
        arr.set(i);
    }
    assert_eq!(arr.collect_unset(), vec![64]);
    arr.set(64);
    assert_eq!(arr.collect_unset(), Vec::<u32>::new());
}

#[test]
fn reset_clears_and_resizes() {
    let mut arr = BitArray::new(200);
    for i in 0..200 {
        arr.set(i);
    }
    arr.reset(3);
    assert_eq!(arr.len(), 3);
    assert_eq!(arr.collect_unset(), vec![0, 1, 2]);
    arr.set(1);
    arr.reset(70);
    assert_eq!(arr.len(), 70);
    assert_eq!(arr.collect_unset(), (0..70).collect::<Vec<u32>>());
    arr.reset(0);
    assert_eq!(arr.collect_unset(), Vec::<u32>::new());
}

#[test]
fn one_block_of_chunks_fits_the_array() {
    let mut arr = BitArray::new(2017);
    for i in 0..2017 {
        if i != 5 && i != 17 && i != 42 {
            arr.set(i);
        }
    }
    assert_eq!(arr.collect_unset(), vec![5, 17, 42]);
}

#[test]
fn array_is_shown_in_binary_or_decimal() {
    let arr = BitArray::new(0);
    assert_eq!(arr.show(true), "");
    assert_eq!(arr.show(false), "BitFlag { flag: [], count: 0 }");
    let mut arr = BitArray::new(3);
    arr.set(0);
    let word = (1u64 << 63) | (u64::MAX >> 3);
    assert_eq!(arr.show(true), format!("{:#066b}", word));
    assert_eq!(arr.show(false), format!("BitFlag {{ flag: [{}], count: 3 }}", word));
    let mut arr = BitArray::new(65);
    arr.set(63);
    arr.set(64);
    assert_eq!(arr.show(true), format!("{:#066b}, {:#066b}", 1u64, u64::MAX));
    assert_eq!(arr.show(false), format!("BitFlag {{ flag: [1, {}], count: 65 }}", u64::MAX));
    let arr = BitArray::new(64);
    assert_eq!(arr.show(true), format!("0b{}", "0".repeat(64)));
    assert_eq!(arr.show(false), "BitFlag { flag: [0], count: 64 }");
}
