use colony_sim::sort::insertion_sort;

#[test]
fn empty() {
    let mut a = [];
    insertion_sort(&mut a, |a: &i32, b: &i32| a.cmp(b));
    // no crash
}

#[test]
fn no_duplicate() {
    let mut a = [5, 4, 2, 1, 6, 7, 23, 24];
    insertion_sort(&mut a, |a, b| a.cmp(b));

    let result = [1, 2, 4, 5, 6, 7, 23, 24];
    assert_eq!(a, result);
}

#[test]
fn with_duplicate() {
    let mut a = [5, 4, 2, 2, 2, 1, 6, 1, 7, 23, 24, 2, 1];
    insertion_sort(&mut a, |a, b| a.cmp(b));

    let result = [1, 1, 1, 2, 2, 2, 2, 4, 5, 6, 7, 23, 24];
    assert_eq!(a, result);
}

#[test]
fn singleton_and_all_equal() {
    let mut one = [42];
    let stats = insertion_sort(&mut one, |a: &i32, b: &i32| a.cmp(b));
    assert_eq!(one, [42]);
    assert_eq!(stats.comparisons, 0);
    assert!(!stats.fell_back);

    let mut same = [7; 20];
    let stats = insertion_sort(&mut same, |a: &i32, b: &i32| a.cmp(b));
    assert_eq!(same, [7; 20]);
    assert_eq!(stats.comparisons, 19);
    assert!(!stats.fell_back);
}

#[test]
fn matches_a_reference_sort() {
    // a simple linear congruential sequence stands in for random input
    let mut state: u64 = 12345;
    for n in 0..200usize {
        let mut v: Vec<i64> = Vec::new();
        for _ in 0..n {
            state = state.wrapping_mul(6364136223846793005).wrapping_add(1442695040888963407);
            v.push(((state >> 33) % 50) as i64 - 25);
        }
        let mut expected = v.clone();
        expected.sort();
        insertion_sort(&mut v, |a, b| a.cmp(b));
        assert_eq!(v, expected);
    }
}

#[test]
fn descending_comparator() {
    let mut a = [3, 9, 1, 4];
    insertion_sort(&mut a, |a: &i32, b: &i32| b.cmp(a));
    assert_eq!(a, [9, 4, 3, 1]);
}

#[test]
fn sorted_input_needs_one_comparison_per_item() {
    for n in 1..300usize {
        let mut v: Vec<usize> = (0..n).collect();
        let stats = insertion_sort(&mut v, |a, b| a.cmp(b));
        assert_eq!(stats.comparisons, (n - 1) as u128);
        assert!(!stats.fell_back);
        assert_eq!(v, (0..n).collect::<Vec<usize>>());
    }
}

#[test]
fn reversed_input_falls_back_and_is_sorted() {
    let n = 100usize;
    let mut v: Vec<usize> = (0..n).rev().collect();
    let stats = insertion_sort(&mut v, |a, b| a.cmp(b));
    assert!(stats.fell_back);
    // the budget for 100 items: ⌊100 · log2(100) / 2⌋ = ⌊664.38 / 2⌋
    assert_eq!(stats.comparisons, 332);
    assert_eq!(v, (0..n).collect::<Vec<usize>>());
}

#[test]
fn short_reversed_input_stays_within_budget() {
    // three items: the budget ⌊3 · log2(3) / 2⌋ = 2 is below the three
    // comparisons that reversing them by insertion needs
    let mut v = [3, 2, 1];
    let stats = insertion_sort(&mut v, |a: &i32, b: &i32| a.cmp(b));
    assert!(stats.fell_back);
    assert_eq!(stats.comparisons, 2);
    assert_eq!(v, [1, 2, 3]);

    // two items: one comparison, within the budget of one
    let mut w = [2, 1];
    let stats = insertion_sort(&mut w, |a: &i32, b: &i32| a.cmp(b));
    assert!(!stats.fell_back);
    assert_eq!(stats.comparisons, 1);
    assert_eq!(w, [1, 2]);
}

#[test]
fn nearly_sorted_input_stays_on_insertion() {
    let mut v: Vec<u32> = (0..64).collect();
    v.swap(10, 11);
    v.swap(40, 41);
    let stats = insertion_sort(&mut v, |a, b| a.cmp(b));
    assert!(!stats.fell_back);
    assert_eq!(stats.comparisons, 63 + 2);
    assert_eq!(v, (0..64).collect::<Vec<u32>>());
}

#[test]
fn small_input_within_budget() {
    // budget for 8 items: 8 · 3 / 2 = 12; the passes need 10
    let mut a = [5, 4, 2, 1, 6, 7, 23, 24];
    let stats = insertion_sort(&mut a, |a: &i32, b: &i32| a.cmp(b));
    assert_eq!(stats.comparisons, 10);
    assert!(!stats.fell_back);
    assert_eq!(a, [1, 2, 4, 5, 6, 7, 23, 24]);
}

#[test]
fn eight_reversed_items_fall_back_after_the_budget() {
    let mut a = [8, 7, 6, 5, 4, 3, 2, 1];
    let stats = insertion_sort(&mut a, |a: &i32, b: &i32| a.cmp(b));
    assert!(stats.fell_back);
    assert_eq!(stats.comparisons, 12);
    assert_eq!(a, [1, 2, 3, 4, 5, 6, 7, 8]);
}

#[test]
fn no_comparisons_below_two_items() {
    let mut calls = std::cell::Cell::new(0);
    let mut empty: [i32; 0] = [];
    let stats = insertion_sort(&mut empty, |a: &i32, b: &i32| {
        calls.set(calls.get() + 1);
        a.cmp(b)
    });
    assert_eq!((stats.comparisons, stats.fell_back), (0, false));
    let mut one = [3];
    let stats = insertion_sort(&mut one, |a: &i32, b: &i32| {
        calls.set(calls.get() + 1);
        a.cmp(b)
    });
    assert_eq!((stats.comparisons, stats.fell_back), (0, false));
    assert_eq!(*calls.get_mut(), 0);
}

#[test]
fn eleven_reversed_items_fall_back_after_nineteen() {
    // 11^11 = 285311670611 lies between 2^38 and 2^39: the budget is 19
    let mut v: Vec<u32> = (0..11).rev().collect();
    let stats = insertion_sort(&mut v, |a, b| a.cmp(b));
    assert!(stats.fell_back);
    assert_eq!(stats.comparisons, 19);
    assert_eq!(v, (0..11).collect::<Vec<u32>>());
}
