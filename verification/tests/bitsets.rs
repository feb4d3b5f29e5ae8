use hit_leiden::solver::algorithm::dense::DenseBitset;
use hit_leiden::solver::algorithm::parallel_frontier::SharedBitVec;
use hit_leiden::solver::algorithm::small::SmallList;
use hit_leiden::solver::algorithm::sorting::{make_key, sort_keys, split_key};

#[test]
fn new_set_is_empty() {
    let set = SharedBitVec::new(130);
    assert_eq!(set.len(), 130);
    assert!(!set.any());
    assert_eq!(set.iter_ones(), Vec::<usize>::new());
    assert_eq!(set.first_one_from(0), None);
}

#[test]
fn set_of_no_ids() {
    let set = SharedBitVec::new(0);
    assert_eq!(set.len(), 0);
    assert!(!set.any());
    assert_eq!(set.iter_ones(), Vec::<usize>::new());
}

#[test]
fn set_and_get_across_words() {
    let mut set = SharedBitVec::new(200);
    for index in [0, 63, 64, 127, 128, 199] {
        set.set(index);
    }
    assert!(set.any());
    assert!(set.get(63));
    assert!(set.get(64));
    assert!(!set.get(65));
    assert!(!set.get(1));
    assert_eq!(set.iter_ones(), vec![0, 63, 64, 127, 128, 199]);
}

#[test]
fn setting_twice_is_setting_once() {
    let mut set = SharedBitVec::new(10);
    set.set(3);
    set.set(3);
    assert_eq!(set.iter_ones(), vec![3]);
}

#[test]
fn clear_takes_an_id_out() {
    let mut set = SharedBitVec::new(70);
    set.set(5);
    set.set(69);
    set.clear(5);
    assert!(!set.get(5));
    assert_eq!(set.iter_ones(), vec![69]);
    set.clear(69);
    assert!(!set.any());
}

#[test]
fn first_one_from_skips_empty_words() {
    let mut set = SharedBitVec::new(400);
    set.set(7);
    set.set(300);
    assert_eq!(set.first_one_from(0), Some(7));
    assert_eq!(set.first_one_from(7), Some(7));
    assert_eq!(set.first_one_from(8), Some(300));
    assert_eq!(set.first_one_from(300), Some(300));
    assert_eq!(set.first_one_from(301), None);
    assert_eq!(set.first_one_from(400), None);
}

#[test]
fn a_full_word_lists_more_ids_than_a_short_list_holds_in_place() {
    let mut set = SharedBitVec::new(64);
    for index in 0..64 {
        set.set(index);
    }
    assert_eq!(set.iter_ones(), (0..64).collect::<Vec<usize>>());
}

#[test]
fn short_list_keeps_order() {
    let mut list = SmallList::new();
    assert_eq!(SmallList::new().into_vec(), Vec::<usize>::new());
    for value in [9, 2, 7, 7, 1, 0, 5, 3, 8, 4] {
        list.push(value);
    }
    assert_eq!(list.into_vec(), vec![9, 2, 7, 7, 1, 0, 5, 3, 8, 4]);
}

#[test]
fn dense_bitset_holds_what_was_inserted() {
    let mut dense = DenseBitset::zeros(100);
    assert_eq!(dense.len(), 100);
    assert!(!dense.any());
    assert_eq!(dense.iter_ones(), Vec::<usize>::new());
    dense.insert(99);
    dense.insert(0);
    dense.insert(64);
    assert!(dense.any());
    assert_eq!(dense.len(), 100);
    assert_eq!(dense.iter_ones(), vec![0, 64, 99]);
}

#[test]
fn into_bitvec_keeps_the_ids() {
    let mut set = SharedBitVec::new(150);
    set.set(1);
    set.set(149);
    let dense = set.into_bitvec();
    assert_eq!(dense.len(), 150);
    assert_eq!(dense.iter_ones(), vec![1, 149]);
}

#[test]
fn union_dense_adds_the_ids_of_the_other() {
    let mut set = SharedBitVec::new(80);
    set.set(2);
    set.set(70);
    let mut other = DenseBitset::zeros(80);
    other.insert(70);
    other.insert(3);
    set.union_dense(&other);
    assert_eq!(set.iter_ones(), vec![2, 3, 70]);
}

#[test]
fn keys_are_sorted_ascending() {
    let mut keys = vec![make_key(2, 1), make_key(0, 9), make_key(2, 0), make_key(1, u64::MAX)];
    sort_keys(&mut keys);
    let halves: Vec<(u64, u64)> = keys.iter().map(|&k| split_key(k)).collect();
    assert_eq!(halves, vec![(0, 9), (1, u64::MAX), (2, 0), (2, 1)]);
}

#[test]
fn keys_keep_their_halves() {
    let key = make_key(7, 11);
    assert_eq!(key, 7u128 * (1u128 << 64) + 11);
    assert_eq!(split_key(key), (7, 11));
    assert_eq!(split_key(make_key(u64::MAX, u64::MAX)), (u64::MAX, u64::MAX));
    assert_eq!(make_key(0, 0), 0);
}
