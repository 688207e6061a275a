use path_tracer::sah::{least, left_mask, sah_choice, Split};

#[test]
fn least_takes_the_first_of_equal_costs() {
    let lt = |a: &i32, b: &i32| a < b;
    assert_eq!(least(&vec![4, 2, 7, 2, 3], &lt), 1);
    assert_eq!(least(&vec![9], &lt), 0);
    assert_eq!(least(&vec![3, 3, 3], &lt), 0);
    assert_eq!(least(&vec![5, 4, 3, 2, 1], &lt), 4);
}

#[test]
fn sah_choice_picks_axis_and_split() {
    let lt = |a: &f32, b: &f32| a < b;
    // Four leaves: three costs per axis.
    let costs = vec![5.0, 4.0, 6.0, 3.5, 3.0, 3.0, 3.0, 7.0, 8.0];
    assert_eq!(sah_choice(&costs, 4, &lt), Split { axis: 1, split: 2 });
    // Two leaves: one cost per axis, ties go to the first axis.
    assert_eq!(sah_choice(&vec![1.0, 1.0, 1.0], 2, &lt), Split { axis: 0, split: 1 });
    assert_eq!(sah_choice(&vec![2.0, 1.0, 1.0], 2, &lt), Split { axis: 1, split: 1 });
}

#[test]
fn sah_split_is_strictly_inside() {
    let lt = |a: &i64, b: &i64| a < b;
    for n in 2..9usize {
        for seed in 0..20i64 {
            let costs: Vec<i64> = (0..3 * (n - 1) as i64).map(|i| (i * 7919 + seed * 104729) % 13).collect();
            let c = sah_choice(&costs, n, &lt);
            assert!(c.axis < 3);
            assert!(0 < c.split && c.split < n);
            let order: Vec<usize> = (0..n).rev().collect();
            let mask = left_mask(&order, c.split, n);
            assert!(mask.iter().any(|&b| b) && mask.iter().any(|&b| !b));
        }
    }
}

#[test]
fn left_mask_flags_the_first_of_the_order() {
    assert_eq!(left_mask(&vec![2, 0, 3, 1], 2, 4), vec![true, false, true, false]);
    assert_eq!(left_mask(&vec![2, 0, 3, 1], 0, 4), vec![false; 4]);
    assert_eq!(left_mask(&vec![9, 1], 2, 3), vec![false, true, false]);
}
