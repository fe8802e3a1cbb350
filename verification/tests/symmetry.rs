use taylor::Irrep;
use taylor::PointGroup;
use taylor::Taylor;

#[test]
fn c1_has_no_checks() {
    let (modchecks, eqchecks) = Taylor::make_checks(vec![(0, Irrep::A), (1, Irrep::A)], &PointGroup::C1);
    assert!(modchecks.is_none());
    assert!(eqchecks.is_none());
}

#[test]
fn cs_puts_the_antisymmetric_coordinates_in_the_first_range() {
    let irreps = vec![(0, Irrep::Ap), (1, Irrep::Ap), (2, Irrep::App), (3, Irrep::App), (4, Irrep::App)];
    let (modchecks, eqchecks) = Taylor::make_checks(irreps, &PointGroup::Cs);
    assert_eq!(modchecks.unwrap().0, [[3, 5], [0, 0], [0, 0]]);
    assert_eq!(eqchecks.unwrap().0, [[3, 5], [0, 0], [0, 0]]);
}

#[test]
fn c2_is_handled_as_cs() {
    let irreps = vec![(0, Irrep::Ap), (2, Irrep::App)];
    let (modchecks, eqchecks) = Taylor::make_checks(irreps, &PointGroup::C2);
    assert_eq!(modchecks.unwrap().0, [[3, 3], [0, 0], [0, 0]]);
    assert_eq!(eqchecks.unwrap().0, [[3, 3], [0, 0], [0, 0]]);
}

#[test]
fn cs_without_antisymmetric_coordinates_has_inactive_ranges() {
    let irreps = vec![(0, Irrep::Ap), (1, Irrep::Ap)];
    let (modchecks, eqchecks) = Taylor::make_checks(irreps, &PointGroup::Cs);
    assert_eq!(modchecks.unwrap().0, [[0, 0], [0, 0], [0, 0]]);
    assert_eq!(eqchecks.unwrap().0, [[0, 0], [0, 0], [0, 0]]);
}

#[test]
fn c2v_has_a_range_for_each_of_three_representations() {
    let irreps = vec![
        (0, Irrep::A1),
        (1, Irrep::A1),
        (2, Irrep::B1),
        (3, Irrep::B2),
        (5, Irrep::B2),
        (4, Irrep::A2),
    ];
    let (modchecks, eqchecks) = Taylor::make_checks(irreps, &PointGroup::C2v);
    assert_eq!(modchecks.unwrap().0, [[3, 3], [4, 6], [5, 5]]);
    assert_eq!(eqchecks.unwrap().0, [[3, 3], [4, 6], [5, 5]]);
}

#[test]
fn a_range_starts_at_the_first_entry_and_ends_at_the_greatest() {
    let irreps = vec![(7, Irrep::B1), (2, Irrep::B1), (9, Irrep::B1), (8, Irrep::B1)];
    let (modchecks, _) = Taylor::make_checks(irreps, &PointGroup::C2v);
    assert_eq!(modchecks.unwrap().0, [[8, 10], [0, 0], [0, 0]]);
    let irreps = vec![(7, Irrep::A2), (2, Irrep::A2)];
    let (_, eqchecks) = Taylor::make_checks(irreps, &PointGroup::C2v);
    assert_eq!(eqchecks.unwrap().0, [[0, 0], [0, 0], [8, 8]]);
}

#[test]
fn checks_are_made_for_four_groups_only() {
    let none: Vec<(usize, Irrep)> = Vec::new();
    assert!(Taylor::can_make_checks(&none, &PointGroup::C1));
    assert!(Taylor::can_make_checks(&none, &PointGroup::C2));
    assert!(Taylor::can_make_checks(&none, &PointGroup::Cs));
    assert!(Taylor::can_make_checks(&none, &PointGroup::C2v));
    assert!(!Taylor::can_make_checks(&none, &PointGroup::D2h));
    assert!(!Taylor::can_make_checks(&none, &PointGroup::C3v));
    assert!(!Taylor::can_make_checks(&none, &PointGroup::D3h));
}

#[test]
fn foreign_representations_are_turned_down() {
    assert!(!Taylor::can_make_checks(&vec![(0, Irrep::A1)], &PointGroup::Cs));
    assert!(!Taylor::can_make_checks(&vec![(0, Irrep::B)], &PointGroup::C2));
    assert!(!Taylor::can_make_checks(&vec![(0, Irrep::A1), (1, Irrep::App)], &PointGroup::C2v));
    assert!(Taylor::can_make_checks(&vec![(0, Irrep::A1), (1, Irrep::B2)], &PointGroup::C2v));
    assert!(Taylor::can_make_checks(&vec![(0, Irrep::B)], &PointGroup::C1));
}

#[test]
fn a_coordinate_without_a_successor_is_turned_down() {
    assert!(!Taylor::can_make_checks(&vec![(usize::MAX, Irrep::App)], &PointGroup::Cs));
    // a totally symmetric coordinate goes into no range
    assert!(Taylor::can_make_checks(&vec![(usize::MAX, Irrep::Ap)], &PointGroup::Cs));
    assert!(Taylor::can_make_checks(&vec![(usize::MAX, Irrep::A1)], &PointGroup::C2v));
    assert!(!Taylor::can_make_checks(&vec![(usize::MAX, Irrep::A2)], &PointGroup::C2v));
}

#[test]
fn made_checks_build_an_expansion() {
    let irreps = vec![(0, Irrep::Ap), (1, Irrep::Ap), (2, Irrep::App)];
    let (modchecks, eqchecks) = Taylor::make_checks(irreps, &PointGroup::Cs);
    let taylor = Taylor::new(5, 3, modchecks, eqchecks);
    assert_eq!(taylor.forces.len(), 22);
}
