use rand::rngs::StdRng;
use rand::SeedableRng;
use wfc_multiset::SlotMultiset;

type MS4u8 = SlotMultiset<u8, 4>;

fn slots<const E: usize>(m: &SlotMultiset<u8, E>) -> Vec<u8> {
    m.iter().copied().collect()
}

#[test]
fn test_from_exact_iter() {
    MS4u8::from_exact_iter(vec![1, 2, 3, 4]);
}

#[test]
fn test_repeat() {
    let result = MS4u8::repeat(3);
    let expected = MS4u8::from_iter(vec![3; 4]);
    assert_eq!(result, expected)
}

#[test]
fn test_zeroes() {
    let result = MS4u8::empty();
    let expected = MS4u8::from_iter(vec![0; 4]);
    assert_eq!(result, expected)
}

#[test]
fn test_contains() {
    let set = MS4u8::from_slice(&[1, 0, 1, 0]);
    assert!(set.contains(2));
    assert!(!set.contains(1));
    assert!(!set.contains(4))
}

#[test]
fn test_union() {
    let a = MS4u8::from_slice(&[2, 0, 4, 0]);
    let b = MS4u8::from_slice(&[0, 0, 3, 1]);
    let c = MS4u8::from_slice(&[2, 0, 4, 1]);
    assert_eq!(c, a.union(&b))
}

#[test]
fn test_intersection() {
    let a = MS4u8::from_slice(&[2, 0, 4, 0]);
    let b = MS4u8::from_slice(&[0, 0, 3, 1]);
    let c = MS4u8::from_slice(&[0, 0, 3, 0]);
    assert_eq!(c, a.intersection(&b))
}

#[test]
fn test_is_subset() {
    let a = MS4u8::from_slice(&[2, 0, 4, 0]);
    let b = MS4u8::from_slice(&[2, 0, 4, 1]);
    assert!(a.is_subset(&b));
    assert!(!b.is_subset(&a));

    let c = MS4u8::from_slice(&[1, 3, 4, 5]);
    assert!(!a.is_subset(&c));
    assert!(!c.is_subset(&a));
}

#[test]
fn test_is_superset() {
    let a = MS4u8::from_slice(&[2, 0, 4, 0]);
    let b = MS4u8::from_slice(&[2, 0, 4, 1]);
    assert!(!a.is_superset(&b));
    assert!(b.is_superset(&a));

    let c = MS4u8::from_slice(&[1, 3, 4, 5]);
    assert!(!a.is_superset(&c));
    assert!(!c.is_superset(&a));
}

#[test]
fn test_is_singleton() {
    let a = MS4u8::from_slice(&[1, 0, 0, 0]);
    assert!(a.is_singleton());

    let b = MS4u8::from_slice(&[0, 0, 0, 5]);
    assert!(b.is_singleton());

    let c = MS4u8::from_slice(&[1, 0, 0, 5]);
    assert!(!c.is_singleton());

    let d = MS4u8::from_slice(&[0, 0, 0, 0]);
    assert!(!d.is_singleton());
}

#[test]
fn test_is_empty() {
    let a = MS4u8::from_slice(&[2, 0, 4, 0]);
    let b = MS4u8::from_slice(&[0, 0, 0, 0]);
    assert!(!a.is_empty());
    assert!(b.is_empty());
}

#[test]
fn test_choose() {
    let mut set = MS4u8::from_slice(&[2, 1, 3, 4]);
    let expected = MS4u8::from_slice(&[0, 0, 3, 0]);
    set.choose_element(2);
    assert_eq!(set, expected)
}

#[test]
fn test_choose_random() {
    let mut result1 = MS4u8::from_slice(&[2, 1, 3, 4]);
    let expected1 = MS4u8::from_slice(&[0, 0, 3, 0]);
    let test_rng1 = &mut StdRng::seed_from_u64(5);
    result1.choose_random(test_rng1);
    assert_eq!(result1, expected1);

    let mut result2 = MS4u8::from_slice(&[2, 1, 3, 4]);
    let expected2 = MS4u8::from_slice(&[2, 0, 0, 0]);
    let test_rng2 = &mut StdRng::seed_from_u64(10);
    result2.choose_random(test_rng2);
    assert_eq!(result2, expected2);
}

#[test]
fn test_choose_random_empty() {
    let mut result = MS4u8::from_slice(&[0, 0, 0, 0]);
    let expected = MS4u8::from_slice(&[0, 0, 0, 0]);
    let test_rng = &mut StdRng::seed_from_u64(1);
    result.choose_random(test_rng);
    assert_eq!(result, expected);
}

#[test]
fn test_count_zero() {
    let set = MS4u8::from_slice(&[0, 0, 3, 0]);
    assert_eq!(set.count_zero(), 3)
}

#[test]
fn test_count_non_zero() {
    let set = MS4u8::from_slice(&[0, 2, 3, 0]);
    assert_eq!(set.count_non_zero(), 2)
}

#[test]
fn test_map() {
    let set = MS4u8::from_slice(&[1, 5, 2, 8]);
    let result = set.map(|e| e as f32 * 1.5);
    let expected = SlotMultiset::from_slice(&[1.5, 7.5, 3.0, 12.0]);
    assert_eq!(result, expected)
}

#[test]
fn test_largest() {
    let set = MS4u8::from_slice(&[1, 5, 2, 8]);
    let expected = (3, 8);
    assert_eq!(set.largest(), expected)
}

#[test]
fn test_smallest() {
    let set = MS4u8::from_slice(&[1, 5, 2, 8]);
    let expected = (0, 1);
    assert_eq!(set.smallest(), expected)
}

// ---- constructors ----

#[test]
fn from_exact_iter_checks_length() {
    let m = MS4u8::from_exact_iter(vec![1, 2, 3, 4]).unwrap();
    assert_eq!(slots(&m), vec![1, 2, 3, 4]);
    assert!(MS4u8::from_exact_iter(vec![1, 2, 3]).is_none());
    assert!(MS4u8::from_exact_iter(vec![1, 2, 3, 4, 5]).is_none());
}

#[test]
fn from_iter_pads_and_truncates() {
    assert_eq!(slots(&MS4u8::from_iter(vec![7, 8])), vec![7, 8, 0, 0]);
    assert_eq!(slots(&MS4u8::from_iter(vec![1, 2, 3, 4, 5, 6])), vec![1, 2, 3, 4]);
    assert_eq!(slots(&MS4u8::from_iter(vec![])), vec![0, 0, 0, 0]);
}

#[test]
fn from_array_and_index() {
    let m = MS4u8::from_array([9, 0, 4, 1]);
    assert_eq!(m[0], 9);
    assert_eq!(m[2], 4);
    assert_eq!(m[3], 1);
}

#[test]
fn default_and_clone() {
    let d: MS4u8 = Default::default();
    assert!(d.is_empty());
    let m = MS4u8::from_slice(&[3, 1, 4, 1]);
    let c = m.clone();
    assert_eq!(c, m);
}

#[test]
fn zero_slot_multiset() {
    let m = SlotMultiset::<u8, 0>::from_slice(&[]);
    assert!(m.is_empty());
    assert_eq!(m.count_zero(), 0);
    assert_eq!(m.count_non_zero(), 0);
    assert_eq!(m.total_elements(), 0);
}

// ---- set functionality ----

#[test]
fn contains_unchecked_reads_slot() {
    let set = MS4u8::from_slice(&[1, 0, 1, 0]);
    assert!(set.contains_unchecked(0));
    assert!(!set.contains_unchecked(3));
}

#[test]
fn proper_subset_and_superset() {
    let a = MS4u8::from_slice(&[2, 0, 4, 0]);
    let b = MS4u8::from_slice(&[2, 0, 4, 1]);
    assert!(a.is_proper_subset(&b));
    assert!(!b.is_proper_subset(&a));
    assert!(!a.is_proper_subset(&a));
    assert!(b.is_proper_superset(&a));
    assert!(!a.is_proper_superset(&b));
    assert!(!a.is_proper_superset(&a));
}

#[test]
fn intersection_subset_and_superset() {
    let a = MS4u8::from_slice(&[2, 0, 4, 0]);
    let b = MS4u8::from_slice(&[3, 9, 4, 0]);
    assert!(a.is_intersection_subset(&b));
    assert!(!b.is_intersection_subset(&a));
    let c = MS4u8::from_slice(&[1, 9, 1, 9]);
    assert!(a.is_intersection_superset(&c));
    assert!(!c.is_intersection_superset(&a));
}

#[test]
fn any_lesser_and_greater() {
    let a = MS4u8::from_slice(&[2, 0, 4, 0]);
    let b = MS4u8::from_slice(&[1, 0, 5, 0]);
    assert!(a.is_any_lesser(&b));
    assert!(a.is_any_greater(&b));
    assert!(!a.is_any_lesser(&a));
    assert!(!a.is_any_greater(&a));
    // is_any_lesser is the negation of is_superset
    assert_eq!(a.is_any_lesser(&b), !a.is_superset(&b));
    let c = MS4u8::from_slice(&[2, 0, 3, 0]);
    assert_eq!(a.is_any_lesser(&c), !a.is_superset(&c));
}

#[test]
fn subset_both_ways_means_equal() {
    let a = MS4u8::from_slice(&[2, 0, 4, 0]);
    let b = MS4u8::from_slice(&[2, 0, 4, 0]);
    assert!(a.is_subset(&b) && b.is_subset(&a));
    assert_eq!(a, b);
}

#[test]
fn intersection_within_union_covers() {
    let a = MS4u8::from_slice(&[2, 7, 4, 0]);
    let b = MS4u8::from_slice(&[5, 0, 3, 1]);
    let i = a.intersection(&b);
    let u = a.union(&b);
    assert!(i.is_subset(&a) && i.is_subset(&b));
    assert!(a.is_subset(&u) && b.is_subset(&u));
    assert_eq!(i.total_elements() + u.total_elements(), a.total_elements() + b.total_elements());
    assert_eq!(slots(&i), vec![2, 0, 3, 0]);
    assert_eq!(slots(&u), vec![5, 7, 4, 1]);
}

#[test]
fn zero_and_nonzero_partition() {
    let a = MS4u8::from_slice(&[0, 7, 0, 1]);
    assert_eq!(a.count_zero() + a.count_non_zero(), 4);
    assert_eq!(a.is_empty(), a.count_non_zero() == 0);
}

#[test]
fn total_elements_sums() {
    let a = MS4u8::from_slice(&[2, 1, 3, 4]);
    assert_eq!(a.total_elements(), 10);
    let b = MS4u8::from_slice(&[255, 0, 0, 0]);
    assert_eq!(b.total_elements(), 255);
}

// ---- choosing ----

#[test]
fn choose_element_out_of_range_clears() {
    let mut set = MS4u8::from_slice(&[2, 1, 3, 4]);
    set.choose_element(7);
    assert!(set.is_empty());
}

#[test]
fn choose_element_of_absent_index_clears() {
    let mut set = MS4u8::from_slice(&[2, 0, 3, 4]);
    set.choose_element(1);
    assert!(set.is_empty());
}

#[test]
fn choose_cumulative_picks_first_slot_reaching_threshold() {
    let base = [2u8, 1, 3, 4];
    let cases: [(u8, [u8; 4]); 7] = [
        (0, [2, 0, 0, 0]),
        (1, [2, 0, 0, 0]),
        (2, [2, 0, 0, 0]),
        (3, [0, 1, 0, 0]),
        (4, [0, 0, 3, 0]),
        (6, [0, 0, 3, 0]),
        (10, [0, 0, 0, 4]),
    ];
    for (t, expected) in cases.iter() {
        let mut m = MS4u8::from_array(base);
        m.choose_cumulative(*t);
        assert_eq!(slots(&m), expected.to_vec(), "threshold {}", t);
    }
    let mut m = MS4u8::from_array(base);
    m.choose_cumulative(11);
    assert!(m.is_empty());
}

#[test]
fn choose_cumulative_zero_threshold_keeps_slot_zero() {
    let mut m = MS4u8::from_slice(&[0, 1, 0, 0]);
    m.choose_cumulative(0);
    assert!(m.is_empty());
}

#[test]
fn choose_random_leaves_one_index_u16() {
    let mut m = SlotMultiset::<u16, 4>::from_slice(&[0, 1000, 0, 0]);
    m.choose_random(&mut StdRng::seed_from_u64(3));
    assert!(m.is_singleton());
    assert!(m.contains(1));
}

#[test]
fn choose_random_leaves_one_index_u32() {
    let mut m = SlotMultiset::<u32, 3>::from_slice(&[0, 0, 5000]);
    m.choose_random(&mut StdRng::seed_from_u64(4));
    assert!(m.is_singleton());
    assert!(m.contains(2));
}

#[test]
fn choose_random_leaves_one_index_u64() {
    let mut m = SlotMultiset::<u64, 2>::from_slice(&[0, 100000]);
    m.choose_random(&mut StdRng::seed_from_u64(5));
    assert!(m.is_singleton());
    assert!(m.contains(1));
}

#[test]
fn choose_random_leaves_one_index_usize() {
    let mut m = SlotMultiset::<usize, 2>::from_slice(&[0, 100000]);
    m.choose_random(&mut StdRng::seed_from_u64(6));
    assert!(m.is_singleton());
    assert!(m.contains(1));
}

#[test]
fn choose_random_result_is_subset() {
    for seed in 0..20u64 {
        let before = MS4u8::from_slice(&[2, 1, 3, 4]);
        let mut m = before.clone();
        m.choose_random(&mut StdRng::seed_from_u64(seed));
        assert!(m.is_subset(&before));
        assert!(m.count_non_zero() <= 1);
    }
}

// ---- extremes ----

#[test]
fn largest_and_smallest_prefer_first() {
    let set = MS4u8::from_slice(&[3, 8, 1, 8]);
    assert_eq!(set.largest(), (1, 8));
    let set = MS4u8::from_slice(&[3, 1, 8, 1]);
    assert_eq!(set.smallest(), (1, 1));
    let one = SlotMultiset::<u8, 1>::from_slice(&[6]);
    assert_eq!(one.largest(), (0, 6));
    assert_eq!(one.smallest(), (0, 6));
}

// ---- maps and folds ----

#[test]
fn fold_in_index_order() {
    let set = MS4u8::from_slice(&[1, 5, 2, 8]);
    let sum = set.fold(0u32, |acc, e| acc + e as u32);
    assert_eq!(sum, 16);
    let digits = set.fold(0u32, |acc, e| acc * 10 + e as u32);
    assert_eq!(digits, 1528);
}

#[test]
fn zip_map_pairs_slots() {
    let a = MS4u8::from_slice(&[1, 5, 2, 8]);
    let b = MS4u8::from_slice(&[3, 1, 2, 0]);
    let d = a.zip_map(&b, |x, y| x as i16 - y as i16);
    assert_eq!(d, SlotMultiset::from_slice(&[-2i16, 4, 0, 8]));
}

#[test]
fn add_assign_adds_slots() {
    let mut a = MS4u8::from_slice(&[1, 5, 2, 8]);
    let b = MS4u8::from_slice(&[3, 1, 2, 0]);
    let before = a.total_elements() + b.total_elements();
    a.add_assign(b);
    assert_eq!(slots(&a), vec![4, 6, 4, 8]);
    assert_eq!(a.total_elements(), before);
}
