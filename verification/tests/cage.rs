use killer_cage::solver::{CageError, KillerCage};

#[test]
fn create_valid_cage() {
    assert_eq!(
        KillerCage::new(9, 3).unwrap(),
        KillerCage {
            max_cell_value: 9,
            cell_count: 3,
        }
    )
}

#[test]
#[should_panic]
fn create_invalid_cage() {
    KillerCage::new(3, 9).unwrap();
}

#[test]
fn invalid_configuration_error() {
    assert_eq!(KillerCage::new(3, 9), Err(CageError));
    assert_eq!(KillerCage::new(0, 1), Err(CageError));
    assert!(KillerCage::new(0, 0).is_ok());
}

#[test]
fn compute_minimum_value() {
    // max_cell_value, cell_count, result
    let test_cases = [
        (9, 1, 1),
        (9, 2, 3),
        (9, 3, 6),
        (9, 4, 10),
        (9, 5, 15),
        (9, 6, 21),
        (9, 7, 28),
        (9, 8, 36),
        (9, 9, 45),
    ];

    for case in test_cases.iter() {
        let cage = KillerCage::new(case.0, case.1).unwrap();
        assert_eq!(cage.minimum_value(), case.2);
    }
}

#[test]
fn compute_maximum_value() {
    // max_cell_value, cell_count, result
    let test_cases = [
        (9, 1, 9),
        (9, 2, 17),
        (9, 3, 24),
        (9, 4, 30),
        (9, 5, 35),
        (9, 6, 39),
        (9, 7, 42),
        (9, 8, 44),
        (9, 9, 45),
        (13, 1, 13),
        (13, 2, 25),
        (13, 3, 36),
        (1, 1, 1),
    ];

    for case in test_cases.iter() {
        let cage = KillerCage::new(case.0, case.1).unwrap();
        assert_eq!(cage.maximum_value(), case.2);
    }
}

#[test]
fn compute_max_positional_value() {
    // max_cell_value, cell_count, index, result
    let test_cases = [
        (9, 3, 2, 9),
        (9, 3, 1, 8),
        (9, 3, 0, 7),
        (9, 2, 1, 9),
        (9, 2, 0, 8),
        (9, 8, 7, 9),
        (9, 8, 5, 7),
        (9, 8, 1, 3),
        (9, 8, 0, 2),
        (12, 3, 2, 12),
        (12, 3, 1, 11),
        (12, 3, 0, 10),
    ];

    for case in test_cases.iter() {
        let cage = KillerCage::new(case.0, case.1).unwrap();
        assert_eq!(cage.max_positional_value(case.2), case.3);
    }
}

#[test]
fn minimum_is_triangular_number() {
    for cell_count in 0..=20u32 {
        let cage = KillerCage::new(25, cell_count).unwrap();
        assert_eq!(cage.minimum_value(), cell_count * (cell_count + 1) / 2);
    }
}

#[test]
fn maximum_is_minimum_plus_spread() {
    for cell_count in 0..=13u32 {
        let cage = KillerCage::new(13, cell_count).unwrap();
        assert_eq!(
            cage.maximum_value(),
            cage.minimum_value() + cell_count * (13 - cell_count)
        );
    }
}
