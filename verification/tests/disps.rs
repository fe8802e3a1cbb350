use std::collections::BTreeSet;
use taylor::order::dedup_rows;
use taylor::order::lex_less;
use taylor::order::sort_rows;
use taylor::stencil::offsets_of;
use taylor::stencil::samples_of_row;
use taylor::Checks;
use taylor::Disps;
use taylor::Taylor;

/// The rows of `n` digits below `m` with a digit sum below `m`, counted up
/// one by one, that pass the parity check or the equality check over
/// `ranges`, or all of them where there are no ranges.
fn rows_by_counting(m: usize, n: usize, ranges: Option<[[usize; 2]; 3]>) -> Vec<Vec<usize>> {
    let mut kept = Vec::new();
    let mut row = vec![0usize; n];
    loop {
        if row.iter().sum::<usize>() < m {
            let ok = match ranges {
                None => true,
                Some(ranges) => {
                    let sums: Vec<Option<usize>> = ranges
                        .iter()
                        .map(|r| if r[0] == 0 { None } else { Some(row[r[0] - 1..r[1]].iter().sum()) })
                        .collect();
                    let even = sums.iter().all(|s| s.map_or(true, |s| s % 2 == 0));
                    let one = sums.iter().all(|s| *s == Some(1));
                    even || one
                }
            };
            if ok {
                kept.push(row.clone());
            }
        }
        let mut k = n;
        loop {
            if k == 0 {
                return kept;
            }
            k -= 1;
            row[k] += 1;
            if row[k] < m {
                break;
            }
            row[k] = 0;
        }
    }
}

/// Every sample point of `row` from position `k` on, appended to `head`.
fn walk(row: &[usize], k: usize, head: &mut Vec<isize>, out: &mut BTreeSet<Vec<isize>>) {
    if k == row.len() {
        out.insert(head.clone());
        return;
    }
    let d = row[k] as isize;
    let mut x = -d;
    while x <= d {
        head.push(x);
        walk(row, k + 1, head, out);
        head.pop();
        x += 2;
    }
}

/// The sample points of all rows, in no particular order.
fn reference_disps(forces: &[Vec<usize>]) -> Vec<Vec<isize>> {
    let mut out = BTreeSet::new();
    for row in forces {
        walk(row, 0, &mut Vec::new(), &mut out);
    }
    out.into_iter().rev().collect()
}

#[test]
fn test_disps() {
    let got = Taylor::new(5, 3, None, None).disps();
    let mut want = Disps(reference_disps(&rows_by_counting(5, 3, None)));
    // the order doesn't matter, so let rust sort both
    want.sort();
    assert_eq!(got, want);
}

#[test]
fn test_disps_with_checks() {
    let got = Taylor::new(
        5,
        9,
        Some(Checks([[5, 7], [8, 8], [9, 9]])),
        Some(Checks([[5, 7], [8, 8], [9, 9]])),
    )
    .disps();
    let rows = rows_by_counting(5, 9, Some([[5, 7], [8, 8], [9, 9]]));
    let mut want = Disps(reference_disps(&rows));
    want.sort();
    assert_eq!(got, want);
}

#[test]
fn test_disps_with_zero_checks() {
    let got = Taylor::new(
        5,
        3,
        Some(Checks([[3, 3], [0, 0], [0, 0]])),
        Some(Checks([[3, 3], [0, 0], [0, 0]])),
    )
    .disps();
    let rows = rows_by_counting(5, 3, Some([[3, 3], [0, 0], [0, 0]]));
    let mut want = Disps(reference_disps(&rows));
    want.sort();
    assert_eq!(got, want);
}

#[test]
fn disps_without_checks_fill_the_ball() {
    // every vector whose entries have absolute values that sum to 4 at most
    let got = Taylor::new(5, 3, None, None).disps();
    assert_eq!(got.len(), 129);
    assert!(!got.is_empty());
    let mut want = Vec::new();
    for a in -4isize..=4 {
        for b in -4isize..=4 {
            for c in -4isize..=4 {
                if a.abs() + b.abs() + c.abs() <= 4 {
                    want.push(vec![a, b, c]);
                }
            }
        }
    }
    assert_eq!(got.0, want);
}

#[test]
fn disps_with_a_single_range_are_counted() {
    let checks = Checks([[3, 3], [0, 0], [0, 0]]);
    let got = Taylor::new(5, 3, Some(checks.clone()), Some(checks)).disps();
    assert_eq!(got.len(), 69);
    // the third entry is even, and the absolute values sum to 4 at most
    let mut want = Vec::new();
    for a in -4isize..=4 {
        for b in -4isize..=4 {
            for c in [-4isize, -2, 0, 2, 4] {
                if a.abs() + b.abs() + c.abs() <= 4 {
                    want.push(vec![a, b, c]);
                }
            }
        }
    }
    assert_eq!(got.0, want);
}

#[test]
fn disps_are_sorted_and_hold_nothing_twice() {
    let got = Taylor::new(4, 4, None, None).disps().0;
    for pair in got.windows(2) {
        assert!(pair[0] < pair[1]);
    }
}

#[test]
fn disps_of_a_small_set() {
    let taylor = Taylor { forces: vec![vec![0, 0], vec![0, 1], vec![2, 0], vec![1, 1]] };
    let want = vec![
        vec![-2, 0],
        vec![-1, -1],
        vec![-1, 1],
        vec![0, -1],
        vec![0, 0],
        vec![0, 1],
        vec![1, -1],
        vec![1, 1],
        vec![2, 0],
    ];
    assert_eq!(taylor.disps().0, want);
}

#[test]
fn disps_do_not_depend_on_row_order() {
    let taylor = Taylor::new(4, 3, None, None);
    let mut reversed = taylor.forces.clone();
    reversed.reverse();
    let mut rotated = taylor.forces.clone();
    rotated.rotate_left(7);
    assert_eq!(taylor.disps(), Taylor { forces: reversed }.disps());
    assert_eq!(taylor.disps(), Taylor { forces: rotated }.disps());
}

#[test]
fn disps_twice_are_the_same() {
    let taylor = Taylor::new(5, 3, None, None);
    assert_eq!(taylor.disps(), taylor.disps());
}

#[test]
fn disps_of_nothing_are_empty() {
    let got = Taylor { forces: Vec::new() }.disps();
    assert!(got.is_empty());
    assert_eq!(got.len(), 0);
}

#[test]
fn zero_row_gives_the_zero_vector_once() {
    assert_eq!(samples_of_row(&vec![0, 0, 0]), vec![vec![0, 0, 0]]);
    assert_eq!(samples_of_row(&vec![]), vec![Vec::<isize>::new()]);
}

#[test]
fn single_digit_gives_its_stencil() {
    assert_eq!(
        samples_of_row(&vec![0, 3, 0]),
        vec![vec![0, -3, 0], vec![0, -1, 0], vec![0, 1, 0], vec![0, 3, 0]]
    );
    assert_eq!(samples_of_row(&vec![4]).len(), 5);
}

#[test]
fn two_digits_give_the_product_of_their_stencils() {
    assert_eq!(
        samples_of_row(&vec![1, 0, 2]),
        vec![
            vec![-1, 0, -2],
            vec![-1, 0, 0],
            vec![-1, 0, 2],
            vec![1, 0, -2],
            vec![1, 0, 0],
            vec![1, 0, 2],
        ]
    );
}

#[test]
fn offsets_step_by_two() {
    assert_eq!(offsets_of(0), vec![0]);
    assert_eq!(offsets_of(1), vec![-1, 1]);
    assert_eq!(offsets_of(4), vec![-4, -2, 0, 2, 4]);
}

#[test]
fn cart_prod_varies_the_last_pool_fastest() {
    let got = Taylor::cart_prod(vec![vec![1, 2], vec![3], vec![4, 5]]);
    assert_eq!(got, vec![vec![1, 3, 4], vec![1, 3, 5], vec![2, 3, 4], vec![2, 3, 5]]);
}

#[test]
fn cart_prod_of_no_pools_is_the_empty_vector() {
    assert_eq!(Taylor::cart_prod(Vec::new()), vec![Vec::<isize>::new()]);
}

#[test]
fn cart_prod_with_an_empty_pool_is_empty() {
    assert!(Taylor::cart_prod(vec![vec![1, 2], vec![]]).is_empty());
}

#[test]
fn sort_keeps_repetitions() {
    let mut disps = Disps(vec![vec![1, 0], vec![-1, 2], vec![1, 0], vec![0], vec![-1, 2, 0], vec![]]);
    disps.sort();
    assert_eq!(
        disps.0,
        vec![vec![], vec![-1, 2], vec![-1, 2, 0], vec![0], vec![1, 0], vec![1, 0]]
    );
}

#[test]
fn sort_agrees_with_the_standard_order() {
    let mut rows: Vec<Vec<isize>> = Vec::new();
    let mut x: isize = 7;
    for _ in 0..200 {
        let mut row = Vec::new();
        for _ in 0..3 {
            x = (x * 31 + 11) % 17;
            row.push(x - 8);
        }
        rows.push(row);
    }
    let mut want = rows.clone();
    want.sort();
    sort_rows(&mut rows);
    assert_eq!(rows, want);
    want.dedup();
    dedup_rows(&mut rows);
    assert_eq!(rows, want);
}

#[test]
fn lex_less_is_the_standard_order() {
    let rows: Vec<Vec<isize>> =
        vec![vec![], vec![0], vec![0, 0], vec![0, 1], vec![1], vec![-1, 5], vec![1, -1]];
    for a in &rows {
        for b in &rows {
            assert_eq!(lex_less(a, b), a < b);
        }
    }
}
