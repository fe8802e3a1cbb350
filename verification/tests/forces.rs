use taylor::Checks;
use taylor::Taylor;
use taylor::TaylorError;

/// All `m^n` tuples in ascending order, filtered by the digit sum and by the
/// two checks under the rule that one passing check is enough.
fn full_scan(
    m: usize,
    n: usize,
    modchecks: Option<&[[usize; 2]]>,
    eqchecks: Option<&[[usize; 2]]>,
) -> Vec<Vec<usize>> {
    let mut kept = Vec::new();
    let mut row = vec![0usize; n];
    loop {
        let sum: usize = row.iter().sum();
        if sum < m {
            let mc = match modchecks {
                Some(ranges) => ranges.iter().all(|r| {
                    r[0] == 0 || row[r[0] - 1..r[1]].iter().sum::<usize>() % 2 == 0
                }),
                None => true,
            };
            let ec = match eqchecks {
                Some(ranges) => ranges
                    .iter()
                    .all(|r| r[0] >= 1 && row[r[0] - 1..r[1]].iter().sum::<usize>() == 1),
                None => true,
            };
            let ok = match (modchecks.is_some(), eqchecks.is_some()) {
                (true, true) => mc || ec,
                (true, false) => mc,
                (false, true) => ec,
                (false, false) => true,
            };
            if ok {
                kept.push(row.clone());
            }
        }
        // count up by one, last digit first
        let mut k = n;
        loop {
            if k == 0 {
                return kept;
            }
            k -= 1;
            row[k] += 1;
            if row[k] < m {
                break;
            }
            row[k] = 0;
        }
    }
}

#[test]
fn test_forces() {
    let got = Taylor::new(5, 3, None, None).forces;
    let want = vec![
        vec![0, 0, 0], vec![0, 0, 1], vec![0, 0, 2],
        vec![0, 0, 3], vec![0, 0, 4], vec![0, 1, 0],
        vec![0, 1, 1], vec![0, 1, 2], vec![0, 1, 3],
        vec![0, 2, 0], vec![0, 2, 1], vec![0, 2, 2],
        vec![0, 3, 0], vec![0, 3, 1], vec![0, 4, 0],
        vec![1, 0, 0], vec![1, 0, 1], vec![1, 0, 2],
        vec![1, 0, 3], vec![1, 1, 0], vec![1, 1, 1],
        vec![1, 1, 2], vec![1, 2, 0], vec![1, 2, 1],
        vec![1, 3, 0], vec![2, 0, 0], vec![2, 0, 1],
        vec![2, 0, 2], vec![2, 1, 0], vec![2, 1, 1],
        vec![2, 2, 0], vec![3, 0, 0], vec![3, 0, 1],
        vec![3, 1, 0], vec![4, 0, 0]];
    assert_eq!(got, want);
}

#[test]
fn test_forces_with_checks() {
    let got = Taylor::new(
        5,
        9,
        Some(Checks([[5, 7], [8, 8], [9, 9]])),
        Some(Checks([[5, 7], [8, 8], [9, 9]])),
    );
    let want = full_scan(
        5,
        9,
        Some(&[[5, 7], [8, 8], [9, 9]]),
        Some(&[[5, 7], [8, 8], [9, 9]]),
    );
    assert_eq!(got.forces, want);
}

#[test]
fn test_forces_with_zero_checks() {
    let got = Taylor::new(
        5,
        3,
        Some(Checks([[3, 3], [0, 0], [0, 0]])),
        Some(Checks([[3, 3], [0, 0], [0, 0]])),
    );
    let want = vec![
        vec![0, 0, 0], vec![0, 0, 2], vec![0, 0, 4],
        vec![0, 1, 0], vec![0, 1, 2], vec![0, 2, 0],
        vec![0, 2, 2], vec![0, 3, 0], vec![0, 4, 0],
        vec![1, 0, 0], vec![1, 0, 2], vec![1, 1, 0],
        vec![1, 1, 2], vec![1, 2, 0], vec![1, 3, 0],
        vec![2, 0, 0], vec![2, 0, 2], vec![2, 1, 0],
        vec![2, 2, 0], vec![3, 0, 0], vec![3, 1, 0],
        vec![4, 0, 0],
    ];
    assert_eq!(got.forces, want);
}

#[test]
fn forces_without_checks_count_and_ends() {
    let forces = Taylor::new(5, 3, None, None).forces;
    assert_eq!(forces.len(), 35);
    assert_eq!(forces[0], vec![0, 0, 0]);
    assert_eq!(forces[1], vec![0, 0, 1]);
    assert_eq!(forces[2], vec![0, 0, 2]);
    assert_eq!(forces[34], vec![4, 0, 0]);
}

#[test]
fn forces_with_single_range_count() {
    let checks = Checks([[3, 3], [0, 0], [0, 0]]);
    let forces = Taylor::new(5, 3, Some(checks.clone()), Some(checks)).forces;
    assert_eq!(forces.len(), 22);
}

#[test]
fn forces_match_full_scan_for_small_sizes() {
    let modc = [[1, 2], [0, 0], [0, 0]];
    let eqc = [[1, 1], [1, 1], [1, 1]];
    for m in 1..=6usize {
        for n in 1..=4usize {
            let mut mod_ranges = modc;
            let mut eq_ranges = eqc;
            if n < 2 {
                mod_ranges = [[1, 1], [0, 0], [0, 0]];
            }
            if n >= 3 {
                eq_ranges = [[1, 1], [2, 3], [1, 3]];
            }
            for (with_mod, with_eq) in [(false, false), (true, false), (false, true), (true, true)] {
                let mc = if with_mod { Some(mod_ranges) } else { None };
                let ec = if with_eq { Some(eq_ranges) } else { None };
                let got = Taylor::new(m, n, mc.map(Checks), ec.map(Checks)).forces;
                let want = full_scan(
                    m,
                    n,
                    mc.as_ref().map(|r| r.as_slice()),
                    ec.as_ref().map(|r| r.as_slice()),
                );
                assert_eq!(got, want, "m={} n={}", m, n);
            }
        }
    }
}

#[test]
fn both_checks_need_only_one_to_pass() {
    // the equality check passes on [0, 0, 1] and the parity check does not
    let checks = Checks([[3, 3], [3, 3], [3, 3]]);
    let both = Taylor::new(3, 3, Some(checks.clone()), Some(checks.clone())).forces;
    assert!(both.contains(&vec![0, 0, 1]));
    assert!(both.contains(&vec![0, 0, 2]));
    let only_mod = Taylor::new(3, 3, Some(checks.clone()), None).forces;
    assert!(!only_mod.contains(&vec![0, 0, 1]));
    assert!(only_mod.contains(&vec![0, 0, 2]));
    let only_eq = Taylor::new(3, 3, None, Some(checks)).forces;
    assert!(only_eq.contains(&vec![0, 0, 1]));
    assert!(!only_eq.contains(&vec![0, 0, 2]));
}

#[test]
fn forces_without_checks_are_counted_by_a_binomial() {
    // the rows of n digits with a sum below m: n + m - 1 choose n
    for m in 1..=6usize {
        for n in 1..=5usize {
            let mut want = 1usize;
            for k in 1..=n {
                want = want * (m - 1 + k) / k;
            }
            assert_eq!(Taylor::new(m, n, None, None).forces.len(), want, "m={} n={}", m, n);
        }
    }
    assert_eq!(Taylor::new(5, 9, None, None).forces.len(), 715);
}

#[test]
fn row_decodes_most_significant_first() {
    assert_eq!(Taylor::row(0, 3, 5), vec![0, 0, 0]);
    assert_eq!(Taylor::row(7, 3, 5), vec![0, 1, 2]);
    assert_eq!(Taylor::row(124, 3, 5), vec![4, 4, 4]);
    assert_eq!(Taylor::row(38, 4, 3), vec![1, 1, 0, 2]);
    assert_eq!(Taylor::row(9, 1, 5), vec![9]);
    assert_eq!(Taylor::row(9, 0, 5), Vec::<usize>::new());
    // what does not fit in the lower digits stays in the first
    assert_eq!(Taylor::row(130, 3, 5), vec![5, 1, 0]);
}

#[test]
fn next_row_jumps_over_the_subtree() {
    // [0, 1, 4] -> [0, 2, 0]
    assert_eq!(Taylor::next_row(vec![0, 1, 4], 3, 5), 10);
    // [1, 4, 0] -> [2, 0, 0]
    assert_eq!(Taylor::next_row(vec![1, 4, 0], 3, 5), 50);
    // [0, 4, 4] -> [0, 5, 0], which is index 25
    assert_eq!(Taylor::next_row(vec![0, 4, 4], 3, 5), 25);
    // [4, 4, 4] -> [4, 5, 0], which is the end of the range
    assert_eq!(Taylor::next_row(vec![4, 4, 4], 3, 5), 125);
}

#[test]
fn next_row_at_the_first_digit_ends_the_enumeration() {
    assert_eq!(Taylor::next_row(vec![3, 0, 0], 3, 5), 125);
    assert_eq!(Taylor::next_row(vec![1], 1, 2), 2);
}

#[test]
fn next_row_of_zeros_stays() {
    assert_eq!(Taylor::next_row(vec![0, 0, 0], 3, 5), 0);
}

#[test]
fn try_new_builds_what_new_builds() {
    let built = Taylor::try_new(5, 3, None, None).unwrap();
    assert_eq!(built.forces, Taylor::new(5, 3, None, None).forces);
}

#[test]
fn try_new_turns_down_order_zero() {
    assert_eq!(Taylor::try_new(0, 3, None, None).unwrap_err(), TaylorError::ZeroOrder);
    assert_eq!(Taylor::try_new(0, 0, None, None).unwrap_err(), TaylorError::ZeroOrder);
}

#[test]
fn try_new_turns_down_no_coordinates() {
    assert_eq!(Taylor::try_new(5, 0, None, None).unwrap_err(), TaylorError::ZeroCoordinates);
}

#[test]
fn try_new_turns_down_malformed_checks() {
    let backwards = Checks([[3, 2], [0, 0], [0, 0]]);
    let too_long = Checks([[1, 4], [0, 0], [0, 0]]);
    let fine = Checks([[1, 3], [0, 0], [0, 0]]);
    assert_eq!(
        Taylor::try_new(5, 3, Some(backwards.clone()), None).unwrap_err(),
        TaylorError::MalformedModChecks
    );
    assert_eq!(
        Taylor::try_new(5, 3, Some(too_long.clone()), Some(backwards.clone())).unwrap_err(),
        TaylorError::MalformedModChecks
    );
    assert_eq!(
        Taylor::try_new(5, 3, Some(fine.clone()), Some(too_long)).unwrap_err(),
        TaylorError::MalformedEqChecks
    );
    assert_eq!(
        Taylor::try_new(5, 3, None, Some(backwards)).unwrap_err(),
        TaylorError::MalformedEqChecks
    );
    assert!(Taylor::try_new(5, 3, Some(fine.clone()), Some(fine)).is_ok());
}

#[test]
fn try_new_turns_down_what_cannot_be_counted() {
    assert_eq!(Taylor::try_new(5, 64, None, None).unwrap_err(), TaylorError::TooManyTuples);
    assert_eq!(
        Taylor::try_new(usize::MAX, 2, None, None).unwrap_err(),
        TaylorError::TooManyTuples
    );
}

#[test]
fn error_messages_name_the_fault() {
    assert_eq!(TaylorError::ZeroOrder.message(), "the truncation order must be at least 1");
    assert_eq!(
        TaylorError::ZeroCoordinates.message(),
        "the number of coordinates must be at least 1"
    );
    assert!(TaylorError::MalformedModChecks.message().contains("mod checks"));
    assert!(TaylorError::MalformedEqChecks.message().contains("eq checks"));
    assert!(TaylorError::TooManyTuples.message().contains("usize"));
}

#[test]
fn three_ranges_in_a_list_are_the_three_of_checks() {
    let ranges = [[5, 7], [8, 8], [9, 9]];
    let listed = Taylor::with_ranges(5, 9, Some(&ranges), Some(&ranges)).forces;
    let fixed = Taylor::new(5, 9, Some(Checks(ranges)), Some(Checks(ranges))).forces;
    assert_eq!(listed, fixed);
}

#[test]
fn any_number_of_ranges_matches_the_full_scan() {
    let lists: Vec<Vec<[usize; 2]>> = vec![
        vec![],
        vec![[4, 4]],
        vec![[1, 2], [3, 4]],
        vec![[1, 1], [2, 2], [3, 3], [4, 4]],
        vec![[1, 4], [0, 0], [2, 3], [4, 4], [1, 1]],
    ];
    for modc in &lists {
        for eqc in &lists {
            for (with_mod, with_eq) in [(true, false), (false, true), (true, true)] {
                let mc = if with_mod { Some(modc.as_slice()) } else { None };
                let ec = if with_eq { Some(eqc.as_slice()) } else { None };
                let got = Taylor::with_ranges(4, 4, mc, ec).forces;
                assert_eq!(got, full_scan(4, 4, mc, ec));
            }
        }
    }
}

#[test]
fn a_single_range_decides_the_equality_check() {
    // one range, and no inactive slot beside it to fail the check
    let got = Taylor::with_ranges(3, 2, None, Some(&[[2, 2]])).forces;
    assert_eq!(got, vec![vec![0, 1], vec![1, 1]]);
    // the same range in three slots, two of them inactive, accepts nothing
    let got = Taylor::new(3, 2, None, Some(Checks([[2, 2], [0, 0], [0, 0]]))).forces;
    assert!(got.is_empty());
}

#[test]
fn try_with_ranges_turns_down_what_try_new_does() {
    let empty: [[usize; 2]; 0] = [];
    assert_eq!(
        Taylor::try_with_ranges(0, 3, None, None).unwrap_err(),
        TaylorError::ZeroOrder
    );
    assert_eq!(
        Taylor::try_with_ranges(3, 0, Some(&empty), None).unwrap_err(),
        TaylorError::ZeroCoordinates
    );
    assert_eq!(
        Taylor::try_with_ranges(3, 3, Some(&[[1, 2], [2, 3], [3, 4], [1, 1]]), None).unwrap_err(),
        TaylorError::MalformedModChecks
    );
    assert_eq!(
        Taylor::try_with_ranges(3, 3, Some(&[[1, 3]]), Some(&[[3, 1]])).unwrap_err(),
        TaylorError::MalformedEqChecks
    );
    assert_eq!(
        Taylor::try_with_ranges(9, 40, Some(&empty), None).unwrap_err(),
        TaylorError::TooManyTuples
    );
    let built = Taylor::try_with_ranges(3, 3, Some(&[[1, 2], [2, 3], [3, 3], [1, 1]]), None);
    assert_eq!(
        built.unwrap().forces,
        full_scan(3, 3, Some(&[[1, 2], [2, 3], [3, 3], [1, 1]]), None)
    );
}
