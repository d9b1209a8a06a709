use sorting_algorithm_visualizer_rs::bubble::bubble_sort_visualized;
use sorting_algorithm_visualizer_rs::insertion::insertion_sort_visualized;
use sorting_algorithm_visualizer_rs::merge::merge_sort_visualized;
use sorting_algorithm_visualizer_rs::quick::quick_sort_visualized;
use sorting_algorithm_visualizer_rs::selection::selection_sort_visualized;
use sorting_algorithm_visualizer_rs::step::{apply_sort_op, SortOp, Step};

type SortFn = fn(&mut Vec<u32>, bool) -> Vec<Step>;

const ALL_SORTS: [SortFn; 5] = [
    bubble_sort_visualized,
    selection_sort_visualized,
    insertion_sort_visualized,
    merge_sort_visualized,
    quick_sort_visualized,
];

#[test]
fn bubble_sorts_example() {
    let mut a = vec![5u32, 3, 4, 1, 2];
    bubble_sort_visualized(&mut a, false);
    assert_eq!(a, vec![1, 2, 3, 4, 5]);
}

#[test]
fn selection_sorts_example() {
    let mut a = vec![5u32, 3, 4, 1, 2];
    selection_sort_visualized(&mut a, false);
    assert_eq!(a, vec![1, 2, 3, 4, 5]);
}

#[test]
fn insertion_sorts_example() {
    let mut a = vec![5u32, 3, 4, 1, 2];
    insertion_sort_visualized(&mut a, false);
    assert_eq!(a, vec![1, 2, 3, 4, 5]);
}

#[test]
fn merge_sorts_example() {
    let mut a = vec![5u32, 3, 4, 1, 2];
    merge_sort_visualized(&mut a, false);
    assert_eq!(a, vec![1, 2, 3, 4, 5]);
}

#[test]
fn quick_sorts_example() {
    let mut a = vec![5u32, 3, 4, 1, 2];
    quick_sort_visualized(&mut a, false);
    assert_eq!(a, vec![1, 2, 3, 4, 5]);
}

#[test]
fn empty_arrays_produce_no_steps() {
    for sort in ALL_SORTS {
        let mut a: Vec<u32> = Vec::new();
        let steps = sort(&mut a, true);
        assert!(steps.is_empty());
        assert!(a.is_empty());
    }
}

#[test]
fn single_element_stays_put() {
    for sort in ALL_SORTS {
        let mut a = vec![1u32];
        sort(&mut a, false);
        assert_eq!(a, vec![1]);
    }
}

#[test]
fn all_sorts_produce_sorted_permutation() {
    let input = vec![7u32, 3, 3, 9, 1, 4, 4, 4, 2, 8, 6, 5];
    let mut expected = input.clone();
    expected.sort();
    for sort in ALL_SORTS {
        let mut a = input.clone();
        sort(&mut a, false);
        assert_eq!(a, expected);
    }
}

#[test]
fn traces_replay_to_the_sorted_array() {
    let input = vec![4u32, 2, 5, 1, 3, 2];
    for sort in ALL_SORTS {
        let mut a = input.clone();
        let steps = sort(&mut a, true);
        let mut replayed = input.clone();
        for st in &steps {
            if let Step::Apply(op) = st {
                apply_sort_op(&mut replayed, *op);
            }
        }
        assert_eq!(replayed, a);
    }
}

#[test]
fn sound_off_leaves_every_frame_silent() {
    let input = vec![3u32, 1, 4, 1, 5];
    for sort in ALL_SORTS {
        let mut a = input.clone();
        let steps = sort(&mut a, false);
        for st in &steps {
            if let Step::Show(f) = st {
                assert!(f.tone.is_none());
            }
        }
    }
}

#[test]
fn sound_on_plays_tones_during_comparisons() {
    let input = vec![3u32, 1, 4, 1, 5];
    for sort in ALL_SORTS {
        let mut a = input.clone();
        let steps = sort(&mut a, true);
        let mut heard = false;
        for st in &steps {
            if let Step::Show(f) = st {
                if f.tone.is_some() {
                    heard = true;
                }
            }
        }
        assert!(heard);
    }
}

#[test]
fn bubble_two_elements_one_comparison_one_swap() {
    let mut a = vec![2u32, 1];
    let steps = bubble_sort_visualized(&mut a, false);
    assert_eq!(a, vec![1, 2]);
    assert_eq!(steps.len(), 3);
    match steps[0] {
        Step::Show(f) => {
            assert_eq!(f.highlight_a, Some(0));
            assert_eq!(f.highlight_b, Some(1));
            assert_eq!(f.sorted_from, Some(2));
            assert!(f.tone.is_none());
        },
        _ => panic!("the first step must show the one comparison"),
    }
    match steps[1] {
        Step::Apply(SortOp::Swap(i, j)) => {
            assert_eq!((i, j), (0, 1));
        },
        _ => panic!("the second step must be the one swap"),
    }
    match steps[2] {
        Step::Show(f) => {
            assert_eq!(f.highlight_a, None);
            assert_eq!(f.highlight_b, None);
            assert_eq!(f.sorted_from, Some(0));
        },
        _ => panic!("the last step must show the fully sorted array"),
    }
}

#[test]
fn quick_sort_three_elements_partitions_around_two() {
    let mut a = vec![3u32, 1, 2];
    quick_sort_visualized(&mut a, false);
    assert_eq!(a, vec![1, 2, 3]);
    // partition invariant around the pivot's final position
    assert!(a[0] <= a[1] && a[1] <= a[2]);
}

#[test]
fn every_trace_ends_fully_sorted_and_green() {
    let input = vec![6u32, 2, 9, 3];
    for sort in ALL_SORTS {
        let mut a = input.clone();
        let steps = sort(&mut a, false);
        match steps.last() {
            Some(Step::Show(f)) => {
                assert_eq!(f.highlight_a, None);
                assert_eq!(f.highlight_b, None);
                assert_eq!(f.sorted_from, Some(0));
            },
            _ => panic!("a nonempty run must close with an all-sorted frame"),
        }
    }
}

#[test]
fn merge_sort_keeps_duplicate_counts() {
    let input = vec![2u32, 2, 1, 2, 1];
    let mut a = input.clone();
    merge_sort_visualized(&mut a, false);
    assert_eq!(a, vec![1, 1, 2, 2, 2]);
}
