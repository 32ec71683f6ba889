use killer_cage::solver::KillerCage;

#[test]
fn compute_cage_values_for_1_cage() {
    let empty_vec: Vec<Vec<u32>> = Vec::new();

    let cage = KillerCage::new(9, 1).unwrap();

    // total, results
    let cases = [
        (1, vec![[1]]),
        (2, vec![[2]]),
        (3, vec![[3]]),
        (5, vec![[5]]),
        (9, vec![[9]]),
    ];

    // totals where there are no solutions
    let empty_cases = [0, 10];

    for case in cases.iter() {
        assert_eq!(cage.find_combinations(case.0), case.1)
    }
    for case in empty_cases.iter() {
        assert_eq!(cage.find_combinations(*case), empty_vec)
    }
}

#[test]
fn compute_cage_values_for_2_cage() {
    let empty_vec: Vec<Vec<u32>> = Vec::new();

    let cage = KillerCage::new(9, 2).unwrap();

    // total, results
    let cases = [
        (3, vec![[1, 2]]),
        (4, vec![[1, 3]]),
        (5, vec![[1, 4], [2, 3]]),
        (6, vec![[1, 5], [2, 4]]),
        (10, vec![[1, 9], [2, 8], [3, 7], [4, 6]]),
        (17, vec![[8, 9]]),
    ];

    // totals where there are no solutions
    let empty_cases = [1, 2, 20];

    for case in cases.iter() {
        assert_eq!(cage.find_combinations(case.0), case.1)
    }
    for case in empty_cases.iter() {
        assert_eq!(cage.find_combinations(*case), empty_vec)
    }
}

#[test]
fn compute_cage_values_with_alternate_max_cell_value() {
    let empty_vec: Vec<Vec<u32>> = Vec::new();

    let cage = KillerCage::new(4, 2).unwrap();

    // total, results
    let cases = [
        (3, vec![[1, 2]]),
        (4, vec![[1, 3]]),
        (5, vec![[1, 4], [2, 3]]),
        (6, vec![[2, 4]]),
        (7, vec![[3, 4]]),
    ];

    // totals where there are no solutions
    let empty_cases = [1, 2, 8];

    for case in cases.iter() {
        assert_eq!(cage.find_combinations(case.0), case.1)
    }
    for case in empty_cases.iter() {
        assert_eq!(cage.find_combinations(*case), empty_vec)
    }
}

#[test]
fn combinations_are_valid_tuples() {
    let cage = KillerCage::new(9, 3).unwrap();
    for total in 0..=30u32 {
        for tuple in cage.find_combinations(total).iter() {
            assert_eq!(tuple.len(), 3);
            for window in tuple.windows(2) {
                assert!(window[0] < window[1]);
            }
            for value in tuple.iter() {
                assert!((1..=9).contains(value));
            }
            assert_eq!(tuple.iter().sum::<u32>(), total);
        }
    }
}

#[test]
fn combinations_strictly_ascending_without_repeats() {
    let cage = KillerCage::new(9, 4).unwrap();
    for total in 0..=40u32 {
        let solutions = cage.find_combinations(total);
        for pair in solutions.windows(2) {
            // strictly ascending lexicographic order, hence no duplicates
            assert!(pair[0] < pair[1]);
        }
    }
}

#[test]
fn minimum_target_yields_exactly_the_least_tuple() {
    let cage = KillerCage::new(9, 4).unwrap();
    let solutions = cage.find_combinations(cage.minimum_value());
    assert_eq!(solutions, vec![vec![1, 2, 3, 4]]);
}

#[test]
fn maximum_target_yields_exactly_the_greatest_tuple() {
    let cage = KillerCage::new(9, 4).unwrap();
    let solutions = cage.find_combinations(cage.maximum_value());
    assert_eq!(solutions, vec![vec![6, 7, 8, 9]]);
}

#[test]
fn full_domain_cage_has_one_tuple() {
    let cage = KillerCage::new(3, 3).unwrap();
    assert_eq!(cage.find_combinations(6), vec![vec![1, 2, 3]]);
    assert_eq!(cage.find_combinations(5), Vec::<Vec<u32>>::new());
}

#[test]
fn zero_cell_cage_has_one_empty_tuple_for_zero() {
    let cage = KillerCage::new(5, 0).unwrap();
    assert_eq!(cage.find_combinations(0), vec![Vec::<u32>::new()]);
    assert_eq!(cage.find_combinations(1), Vec::<Vec<u32>>::new());
}
