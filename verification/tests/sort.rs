use wordguess::sort::{
    quicksort, BubbleSort, InsertionSort, QuickSort, SelectionSort, Sorter, StdSorter,
};

#[test]
fn std_works() {
    let mut things = vec![4, 2, 3, 1];
    StdSorter.sort(&mut things);
    assert_eq!(things, &[1, 2, 3, 4]);
}

#[test]
fn bubble() {
    let mut things = vec![4, 2, 5, 3, 1];
    BubbleSort.sort(&mut things);
    assert_eq!(things, &[1, 2, 3, 4, 5]);
}

#[test]
fn insertion_works_dumb() {
    let mut things = vec![4, 2, 5, 3, 1];
    InsertionSort { smart: false }.sort(&mut things);
    assert_eq!(things, &[1, 2, 3, 4, 5]);
}

#[test]
fn insertion_works_smart() {
    let mut things = vec![4, 2, 5, 3, 1];
    InsertionSort { smart: true }.sort(&mut things);
    assert_eq!(things, &[1, 2, 3, 4, 5]);
}

#[test]
fn selection() {
    let mut things = vec![4, 2, 5, 3, 1];
    SelectionSort.sort(&mut things);
    assert_eq!(things, &[1, 2, 3, 4, 5]);
}

#[test]
fn quick() {
    let mut things = vec![4, 2, 5, 3, 1];
    QuickSort.sort(&mut things);
    assert_eq!(things, &[1, 2, 3, 4, 5]);
}

fn scrambled(n: u64) -> Vec<u64> {
    let mut state: u64 = 0x2545_f491_4f6c_dd1d;
    let mut out = Vec::new();
    for _ in 0..n {
        state ^= state << 13;
        state ^= state >> 7;
        state ^= state << 17;
        out.push(state % 50);
    }
    out
}

fn sorted_copy(v: &[u64]) -> Vec<u64> {
    let mut w = v.to_vec();
    w.sort();
    w
}

#[test]
fn every_sorter_agrees_with_the_standard_sort() {
    for n in [0u64, 1, 2, 3, 7, 64, 200] {
        let input = scrambled(n);
        let expected = sorted_copy(&input);

        let mut v = input.clone();
        StdSorter.sort(&mut v);
        assert_eq!(v, expected);

        let mut v = input.clone();
        BubbleSort.sort(&mut v);
        assert_eq!(v, expected);

        let mut v = input.clone();
        InsertionSort { smart: false }.sort(&mut v);
        assert_eq!(v, expected);

        let mut v = input.clone();
        InsertionSort { smart: true }.sort(&mut v);
        assert_eq!(v, expected);

        let mut v = input.clone();
        SelectionSort.sort(&mut v);
        assert_eq!(v, expected);

        let mut v = input.clone();
        QuickSort.sort(&mut v);
        assert_eq!(v, expected);
    }
}

#[test]
fn sorting_empty_and_single_slices_changes_nothing() {
    let mut none: Vec<i32> = vec![];
    BubbleSort.sort(&mut none);
    assert_eq!(none, Vec::<i32>::new());
    let mut one = vec![7];
    quicksort(&mut one);
    assert_eq!(one, vec![7]);
    SelectionSort.sort(&mut one);
    assert_eq!(one, vec![7]);
}

#[test]
fn sorting_keeps_repeated_elements() {
    let mut things = vec![3, 1, 3, 1, 2, 2, 3];
    quicksort(&mut things);
    assert_eq!(things, vec![1, 1, 2, 2, 3, 3, 3]);
    let mut things = vec![9, 9, 9, 1];
    BubbleSort.sort(&mut things);
    assert_eq!(things, vec![1, 9, 9, 9]);
}

#[test]
fn standard_sort_keeps_equal_elements_in_order() {
    // Ordered by the first field alone, so the second shows where an element came from.
    #[derive(Debug, Clone, Copy)]
    struct Tagged(u8, u8);
    impl PartialEq for Tagged {
        fn eq(&self, other: &Self) -> bool {
            self.0 == other.0
        }
    }
    impl Eq for Tagged {}
    impl PartialOrd for Tagged {
        fn partial_cmp(&self, other: &Self) -> Option<std::cmp::Ordering> {
            Some(self.cmp(other))
        }
    }
    impl Ord for Tagged {
        fn cmp(&self, other: &Self) -> std::cmp::Ordering {
            self.0.cmp(&other.0)
        }
    }
    let mut things = vec![Tagged(2, 0), Tagged(1, 1), Tagged(2, 2), Tagged(1, 3)];
    StdSorter.sort(&mut things);
    let tags: Vec<(u8, u8)> = things.iter().map(|t| (t.0, t.1)).collect();
    assert_eq!(tags, vec![(1, 1), (1, 3), (2, 0), (2, 2)]);
}

#[test]
fn sorts_text() {
    let mut words = vec!["pear", "apple", "fig", "apple"];
    InsertionSort { smart: true }.sort(&mut words);
    assert_eq!(words, vec!["apple", "apple", "fig", "pear"]);
}

#[test]
fn a_sorted_slice_is_left_as_it_is() {
    // Ordered by the first field alone, so the second shows where an element stands.
    #[derive(Debug, Clone, Copy)]
    struct Tagged(u8, u8);
    impl PartialEq for Tagged {
        fn eq(&self, other: &Self) -> bool {
            self.0 == other.0
        }
    }
    impl Eq for Tagged {}
    impl PartialOrd for Tagged {
        fn partial_cmp(&self, other: &Self) -> Option<std::cmp::Ordering> {
            Some(self.cmp(other))
        }
    }
    impl Ord for Tagged {
        fn cmp(&self, other: &Self) -> std::cmp::Ordering {
            self.0.cmp(&other.0)
        }
    }
    let sorted = vec![Tagged(1, 0), Tagged(1, 1), Tagged(2, 2), Tagged(2, 3), Tagged(2, 4), Tagged(3, 5)];
    let tags = |v: &Vec<Tagged>| -> Vec<(u8, u8)> { v.iter().map(|t| (t.0, t.1)).collect() };
    let expected = tags(&sorted);

    let mut v = sorted.clone();
    BubbleSort.sort(&mut v);
    assert_eq!(tags(&v), expected);

    let mut v = sorted.clone();
    InsertionSort { smart: false }.sort(&mut v);
    assert_eq!(tags(&v), expected);

    let mut v = sorted.clone();
    SelectionSort.sort(&mut v);
    assert_eq!(tags(&v), expected);

    let mut v = sorted.clone();
    StdSorter.sort(&mut v);
    assert_eq!(tags(&v), expected);
}
