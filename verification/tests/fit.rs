use nalgebra::DMatrix;
use taylor::Checks;
use taylor::Disps;
use taylor::Taylor;
use taylor::TaylorError;

#[test]
fn exponents_hold_the_terms_as_columns() {
    let taylor = Taylor { forces: vec![vec![0, 0, 1], vec![0, 2, 0], vec![3, 0, 0], vec![1, 1, 0]] };
    let exponents = taylor.exponents().unwrap();
    assert_eq!(exponents.shape(), (3, 4));
    for c in 0..4 {
        for r in 0..3 {
            assert_eq!(exponents.get(r, c), Some(taylor.forces[c][r] as i32));
        }
    }
    assert_eq!(exponents.get(0, 2), Some(3));
    assert_eq!(exponents.get(2, 0), Some(1));
    assert_eq!(exponents.get(3, 0), None);
    assert_eq!(exponents.get(0, 4), None);
}

#[test]
fn exponents_agree_with_a_matrix_filled_by_columns() {
    let taylor = Taylor::new(5, 3, None, None);
    let exponents = taylor.exponents().unwrap();
    let flat: Vec<i32> = taylor.forces.iter().flatten().map(|d| *d as i32).collect();
    let want = DMatrix::from_column_slice(3, 35, &flat);
    assert_eq!(exponents.shape(), want.shape());
    for r in 0..3 {
        for c in 0..35 {
            assert_eq!(exponents.get(r, c), Some(want[(r, c)]));
        }
    }
}

#[test]
fn exponents_of_an_empty_set_are_turned_down() {
    let taylor = Taylor { forces: Vec::new() };
    assert_eq!(taylor.exponents().err(), Some(TaylorError::NoTerms));
}

#[test]
fn exponents_of_ragged_rows_are_turned_down() {
    let taylor = Taylor { forces: vec![vec![0, 1], vec![1]] };
    assert_eq!(taylor.exponents().err(), Some(TaylorError::RaggedRows));
    let taylor = Taylor { forces: vec![vec![usize::MAX, 1], vec![1]] };
    assert_eq!(taylor.exponents().err(), Some(TaylorError::RaggedRows));
}

#[test]
fn exponents_of_huge_digits_are_turned_down() {
    let taylor = Taylor { forces: vec![vec![0, 1], vec![1, i32::MAX as usize + 1]] };
    assert_eq!(taylor.exponents().err(), Some(TaylorError::DigitTooLarge));
    let taylor = Taylor { forces: vec![vec![0, 1], vec![1, i32::MAX as usize]] };
    assert_eq!(taylor.exponents().unwrap().get(1, 1), Some(i32::MAX));
}

#[test]
fn exponents_of_rows_without_coordinates() {
    let taylor = Taylor { forces: vec![vec![], vec![]] };
    let exponents = taylor.exponents().unwrap();
    assert_eq!(exponents.shape(), (0, 2));
    assert_eq!(exponents.get(0, 0), None);
}

#[test]
fn flatten_lays_the_vectors_out_row_by_row() {
    let disps = Disps(vec![vec![-1, 0, 2], vec![0, 0, 0], vec![4, -4, 1]]);
    assert_eq!(disps.flatten(), vec![-1, 0, 2, 0, 0, 0, 4, -4, 1]);
    assert_eq!(Disps(Vec::new()).flatten(), Vec::<isize>::new());
}

#[test]
fn flattened_disps_fill_a_matrix_by_rows() {
    let disps = Taylor::new(3, 2, None, None).disps();
    let flat: Vec<f64> = disps.flatten().iter().map(|x| *x as f64).collect();
    let matrix = DMatrix::from_row_slice(disps.len(), 2, &flat);
    for (r, disp) in disps.0.iter().enumerate() {
        for (c, x) in disp.iter().enumerate() {
            assert_eq!(matrix[(r, c)], *x as f64);
        }
    }
}

#[test]
fn scaled_disps_come_back_exactly() {
    let disps = Taylor::new(5, 3, None, None).disps();
    let step = 0.005;
    for disp in &disps.0 {
        for x in disp {
            let scaled = *x as f64 * step;
            assert_eq!(scaled / step, *x as f64);
        }
    }
}

#[test]
fn energies_are_counted_against_the_disps() {
    let disps = Taylor::new(5, 3, None, None).disps();
    assert_eq!(disps.check_energies(129), Ok(()));
    assert_eq!(disps.check_energies(128), Err(TaylorError::EnergyCountMismatch));
    assert_eq!(disps.check_energies(0), Err(TaylorError::EnergyCountMismatch));
    assert_eq!(Disps(Vec::new()).check_energies(0), Ok(()));
}

#[test]
fn exponent_columns_follow_the_order_of_the_terms() {
    let checks = Checks([[3, 3], [0, 0], [0, 0]]);
    let taylor = Taylor::new(5, 3, Some(checks.clone()), Some(checks));
    let exponents = taylor.exponents().unwrap();
    assert_eq!(exponents.shape(), (3, 22));
    assert_eq!(exponents.get(2, 1), Some(2));
    assert_eq!(exponents.get(0, 21), Some(4));
}

#[test]
fn more_error_messages() {
    assert_eq!(TaylorError::NoTerms.message(), "the Taylor set is empty");
    assert_eq!(TaylorError::RaggedRows.message(), "the rows of the Taylor set differ in length");
    assert_eq!(
        TaylorError::DigitTooLarge.message(),
        "a digit of the Taylor set does not fit in i32"
    );
    assert_eq!(
        TaylorError::EnergyCountMismatch.message(),
        "there must be one energy for each displacement"
    );
}
