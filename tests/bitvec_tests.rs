use packed_bits::bitvec::{bits_for_words, words_for_bits};
use packed_bits::BitVec;

fn from_bools(values: &[bool]) -> BitVec {
    let mut v = BitVec::new();
    for &b in values {
        v.push(b);
    }
    v
}

fn to_bools(v: &BitVec) -> Vec<bool> {
    (0..v.len()).map(|i| v.get(i).unwrap()).collect()
}

fn pattern(n: usize) -> Vec<bool> {
    (0..n).map(|i| i % 3 == 0 || i % 7 == 5).collect()
}

#[test]
fn new_is_empty() {
    let v = BitVec::new();
    assert_eq!(v.len(), 0);
    assert_eq!(v.get(0), None);
    assert!(v.internal().is_empty());
}

#[test]
fn push_then_get_round_trip() {
    for n in [0usize, 1, 63, 64, 65, 127, 128, 129, 300] {
        let values = pattern(n);
        let v = from_bools(&values);
        assert_eq!(v.len(), n);
        for (i, &b) in values.iter().enumerate() {
            assert_eq!(v.get(i), Some(b));
        }
        assert_eq!(v.get(n), None);
    }
}

#[test]
fn push_then_pop_restores() {
    for n in [0usize, 1, 5, 63, 64, 65, 128] {
        for x in [false, true] {
            let mut v = from_bools(&pattern(n));
            v.push(x);
            assert_eq!(v.pop(), Some(x));
            assert_eq!(v.len(), n);
            assert_eq!(to_bools(&v), pattern(n));
        }
    }
}

#[test]
fn pop_on_empty_is_none() {
    let mut v = BitVec::new();
    assert_eq!(v.pop(), None);
    v.push(true);
    assert_eq!(v.pop(), Some(true));
    assert_eq!(v.pop(), None);
    assert_eq!(v.len(), 0);
    v.push(false);
    assert_eq!(to_bools(&v), vec![false]);
}

#[test]
fn pop_clears_the_popped_bit() {
    let mut v = from_bools(&[true, true, true]);
    assert_eq!(v.pop(), Some(true));
    assert_eq!(v.internal()[0], 0b11);
}

#[test]
fn insert_then_remove_restores() {
    for n in [0usize, 1, 63, 64, 65, 130, 192] {
        let values = pattern(n);
        for index in 0..=n {
            for x in [false, true] {
                let mut v = from_bools(&values);
                v.insert(index, x);
                assert_eq!(v.len(), n + 1);
                let mut expected = values.clone();
                expected.insert(index, x);
                assert_eq!(to_bools(&v), expected);
                assert_eq!(v.remove(index), x);
                assert_eq!(to_bools(&v), values);
            }
        }
    }
}

#[test]
fn remove_matches_vec_remove() {
    let values = pattern(200);
    for index in 0..200 {
        let mut v = from_bools(&values);
        let mut expected = values.clone();
        let removed = expected.remove(index);
        assert_eq!(v.remove(index), removed);
        assert_eq!(to_bools(&v), expected);
    }
}

#[test]
fn length_follows_word_count_and_fill() {
    let mut v = BitVec::new();
    for i in 0..200usize {
        v.push(i % 2 == 0);
        assert_eq!(v.internal().len(), (i + 1 + 63) / 64);
        assert_eq!(v.len(), (v.internal().len() - 1) * 64 + (i % 64) + 1);
    }
    v.insert(10, true);
    assert_eq!(v.len(), 201);
    assert_eq!(v.internal().len(), 4);
    while v.len() > 128 {
        v.remove(0);
    }
    assert_eq!(v.internal().len(), 2);
    v.remove(5);
    assert_eq!(v.len(), 127);
    assert_eq!(v.internal().len(), 2);
}

#[test]
fn insert_at_end_of_full_word_adds_a_word() {
    let mut v = from_bools(&vec![true; 64]);
    assert_eq!(v.internal().len(), 1);
    v.insert(64, false);
    assert_eq!(v.internal().len(), 2);
    v.insert(0, false);
    assert_eq!(v.len(), 66);
    assert_eq!(v.get(0), Some(false));
    assert_eq!(v.get(64), Some(true));
    assert_eq!(v.get(65), Some(false));
}

#[test]
fn remove_last_bit_of_a_word_drops_it() {
    let mut v = from_bools(&pattern(65));
    assert_eq!(v.internal().len(), 2);
    assert_eq!(v.remove(3), true);
    assert_eq!(v.internal().len(), 1);
    assert_eq!(v.len(), 64);
    v.push(true);
    assert_eq!(v.get(64), Some(true));
}

#[test]
fn capacity_rounds_up_to_whole_words() {
    for n in [0usize, 1, 63, 64, 65, 1000] {
        let v = BitVec::with_capacity(n);
        assert!(v.capacity() >= n);
        assert_eq!(v.capacity() % 64, 0);
        assert_eq!(v.len(), 0);
    }
}

#[test]
fn words_for_bits_values() {
    assert_eq!(words_for_bits(0), 0);
    assert_eq!(words_for_bits(1), 1);
    assert_eq!(words_for_bits(64), 1);
    assert_eq!(words_for_bits(65), 2);
    assert_eq!(words_for_bits(128), 2);
    assert_eq!(words_for_bits(usize::MAX), usize::MAX / 64 + 1);
}

#[test]
fn capacity_covers_length() {
    let mut v = BitVec::new();
    assert_eq!(v.capacity(), 0);
    for i in 0..100usize {
        v.push(i % 5 == 0);
        assert!(v.capacity() >= v.len());
    }
}

#[test]
fn sixty_five_true_values() {
    let v = from_bools(&vec![true; 65]);
    assert_eq!(v.len(), 65);
    assert_eq!(v.internal().len(), 2);
    assert_eq!(v.get(64), Some(true));
    assert_eq!(v.get(65), None);
}

#[test]
fn insert_false_at_front() {
    let mut v = from_bools(&[true]);
    v.insert(0, false);
    assert_eq!(to_bools(&v), vec![false, true]);
}

#[test]
fn remove_front_of_two() {
    let mut v = from_bools(&[false, true]);
    assert_eq!(v.remove(0), false);
    assert_eq!(to_bools(&v), vec![true]);
}

#[test]
fn pop_single_bit() {
    for b in [false, true] {
        let mut v = from_bools(&[b]);
        assert_eq!(v.pop(), Some(b));
        assert_eq!(v.len(), 0);
        assert!(v.internal().is_empty());
    }
}

#[test]
fn raw_words_layout() {
    let v = from_bools(&[true, false, true, true]);
    assert_eq!(v.internal(), &vec![0b1101u64]);
    let mut w = from_bools(&vec![false; 70]);
    w.internal_mut()[1] = 0b10;
    assert_eq!(w.get(65), Some(true));
    assert_eq!(w.get(64), Some(false));
    assert_eq!(w.len(), 70);
}

#[test]
fn renders_as_list() {
    assert_eq!(BitVec::new().to_string(), "[]\n");
    assert_eq!(from_bools(&[true]).to_string(), "[true]\n");
    assert_eq!(from_bools(&[true, false, true]).to_string(), "[true, false, true]\n");
}

#[test]
fn capacity_kept_after_mutations() {
    for n in [1usize, 64, 65, 300] {
        let mut v = BitVec::with_capacity(n);
        v.push(true);
        v.insert(0, false);
        v.push(true);
        assert_eq!(v.remove(1), true);
        assert_eq!(v.pop(), Some(true));
        assert!(v.capacity() >= n);
    }
}

#[test]
fn clone_keeps_bits() {
    let v = from_bools(&pattern(130));
    let w = v.clone();
    assert_eq!(to_bools(&w), pattern(130));
    assert_eq!(w.internal(), v.internal());
    assert!(w.capacity() >= w.len());
}

#[test]
fn bits_for_words_values() {
    assert_eq!(bits_for_words(0), 0);
    assert_eq!(bits_for_words(1), 64);
    assert_eq!(bits_for_words(2), 128);
    assert_eq!(bits_for_words(usize::MAX / 64), usize::MAX / 64 * 64);
    assert_eq!(bits_for_words(usize::MAX / 64 + 1), usize::MAX);
}
