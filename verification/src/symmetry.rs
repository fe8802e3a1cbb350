//! From the symmetry of the coordinates to the checks of an expansion: which
//! coordinates belong to which irreducible representation decides the digit
//! ranges of the checks.
use crate::checks::Checks;
use crate::expansion::Taylor;
use vstd::prelude::*;

verus! {

/// The label of an irreducible representation of `C1`, `C2`, `Cs` or `C2v`.
/// A prime is written `p`.
#[derive(Clone, Copy, Debug, PartialEq, Eq, Structural)]
pub enum Irrep {
    A,
    B,
    Ap,
    App,
    A1,
    B2,
    B1,
    A2,
}

/// A point group, without its axes and planes.
#[derive(Clone, Copy, Debug, PartialEq, Eq, Structural)]
pub enum PointGroup {
    C1,
    C2,
    Cs,
    C2v,
    D2h,
    C3v,
    D3h,
}

/// The representation whose coordinates make up the range in `slot`, for
/// the point groups that have checks.
pub open spec fn slot_label(pg: PointGroup, slot: int) -> Option<Irrep> {
    match pg {
        PointGroup::Cs | PointGroup::C2 => if slot == 0 {
            Some(Irrep::App)
        } else {
            None
        },
        PointGroup::C2v => if slot == 0 {
            Some(Irrep::B1)
        } else if slot == 1 {
            Some(Irrep::B2)
        } else if slot == 2 {
            Some(Irrep::A2)
        } else {
            None
        },
        _ => None,
    }
}

/// The representations that may occur among the coordinates of a molecule
/// of the point group, as far as checks are made for it.
pub open spec fn belongs(pg: PointGroup, irrep: Irrep) -> bool {
    match pg {
        PointGroup::Cs | PointGroup::C2 => irrep == Irrep::Ap || irrep == Irrep::App,
        PointGroup::C2v => irrep == Irrep::A1 || irrep == Irrep::B1 || irrep == Irrep::B2 || irrep
            == Irrep::A2,
        _ => false,
    }
}

/// `irrep` is the label of a slot of `pg`.
pub open spec fn has_slot(pg: PointGroup, irrep: Irrep) -> bool {
    exists|slot: int| 0 <= slot < 3 && #[trigger] slot_label(pg, slot) == Some(irrep)
}

/// The checks of `pg` can be made from `irreps`: the group is `C1`, or it is
/// `Cs`, `C2` or `C2v`, every representation belongs to it, and the index
/// after each coordinate that goes into a range can be written down.
pub open spec fn checks_can_be_made(irreps: Seq<(usize, Irrep)>, pg: PointGroup) -> bool {
    match pg {
        PointGroup::C1 => true,
        PointGroup::Cs | PointGroup::C2 | PointGroup::C2v => forall|i: int|
            0 <= i < irreps.len() ==> belongs(pg, (#[trigger] irreps[i]).1) && (has_slot(
                pg,
                irreps[i].1,
            ) ==> irreps[i].0 < usize::MAX),
        _ => false,
    }
}

/// The coordinate of the first entry of `irreps` with the label.
pub open spec fn first_of(irreps: Seq<(usize, Irrep)>, label: Irrep) -> Option<nat>
    decreases irreps.len(),
{
    if irreps.len() == 0 {
        None
    } else {
        match first_of(irreps.drop_last(), label) {
            Some(first) => Some(first),
            None => if irreps.last().1 == label {
                Some(irreps.last().0 as nat)
            } else {
                None
            },
        }
    }
}

/// The greatest coordinate among the entries of `irreps` with the label.
pub open spec fn greatest_of(irreps: Seq<(usize, Irrep)>, label: Irrep) -> Option<nat>
    decreases irreps.len(),
{
    if irreps.len() == 0 {
        None
    } else {
        let before = greatest_of(irreps.drop_last(), label);
        if irreps.last().1 != label {
            before
        } else {
            match before {
                Some(greatest) => if irreps.last().0 > greatest {
                    Some(irreps.last().0 as nat)
                } else {
                    Some(greatest)
                },
                None => Some(irreps.last().0 as nat),
            }
        }
    }
}

/// The range of the coordinates with the label, 1-indexed: from the first
/// entry with the label to the greatest coordinate with it. Inactive where
/// no entry has the label.
pub open spec fn span_of(irreps: Seq<(usize, Irrep)>, label: Irrep) -> (nat, nat) {
    match (first_of(irreps, label), greatest_of(irreps, label)) {
        (Some(first), Some(greatest)) => (first + 1, greatest + 1),
        _ => (0, 0),
    }
}

/// The ranges that the checks of `pg` hold for `irreps`.
pub open spec fn ranges_for(irreps: Seq<(usize, Irrep)>, pg: PointGroup) -> Seq<(nat, nat)> {
    Seq::new(
        3,
        |slot: int|
            match slot_label(pg, slot) {
                Some(label) => span_of(irreps, label),
                None => (0nat, 0nat),
            },
    )
}

/// Tells whether `irrep` belongs to `pg`.
fn is_member(pg: &PointGroup, irrep: Irrep) -> (member: bool)
    ensures
        member == belongs(*pg, irrep),
{
    match pg {
        PointGroup::Cs | PointGroup::C2 => irrep == Irrep::Ap || irrep == Irrep::App,
        PointGroup::C2v => irrep == Irrep::A1 || irrep == Irrep::B1 || irrep == Irrep::B2 || irrep
            == Irrep::A2,
        _ => false,
    }
}

/// Tells whether `irrep` goes into a range of the checks of `pg`.
fn goes_into_a_range(pg: &PointGroup, irrep: Irrep) -> (goes: bool)
    ensures
        goes == has_slot(*pg, irrep),
{
    let goes = match pg {
        PointGroup::Cs | PointGroup::C2 => irrep == Irrep::App,
        PointGroup::C2v => irrep == Irrep::B1 || irrep == Irrep::B2 || irrep == Irrep::A2,
        _ => false,
    };
    proof {
        if goes {
            assert(slot_label(*pg, 0) == Some(irrep) || slot_label(*pg, 1) == Some(irrep)
                || slot_label(*pg, 2) == Some(irrep));
        }
    }
    goes
}

/// The range of the coordinates with the label.
fn span(irreps: &Vec<(usize, Irrep)>, label: Irrep) -> (range: [usize; 2])
    requires
        forall|i: int|
            0 <= i < irreps.len() && (#[trigger] irreps[i]).1 == label ==> irreps[i].0
                < usize::MAX,
    ensures
        (range[0] as nat, range[1] as nat) == span_of(irreps@, label),
{
    let mut start: usize = 0;
    let mut end: usize = 0;
    let mut i: usize = 0;
    assert(irreps@.take(0) =~= Seq::<(usize, Irrep)>::empty());
    while i < irreps.len()
        invariant
            i <= irreps.len(),
            forall|k: int|
                0 <= k < irreps.len() && (#[trigger] irreps[k]).1 == label ==> irreps[k].0
                    < usize::MAX,
            (start as nat, end as nat) == span_of(irreps@.take(i as int), label),
            start == 0 <==> first_of(irreps@.take(i as int), label) is None,
            first_of(irreps@.take(i as int), label) is None <==> greatest_of(
                irreps@.take(i as int),
                label,
            ) is None,
        decreases irreps.len() - i,
    {
        proof {
            assert(irreps@.take(i + 1).drop_last() =~= irreps@.take(i as int));
            assert(irreps@.take(i + 1).last() == irreps[i as int]);
        }
        if irreps[i].1 == label {
            let next = irreps[i].0 + 1;
            if start == 0 {
                start = next;
                end = next;
            } else if next > end {
                end = next;
            }
        }
        i = i + 1;
    }
    assert(irreps@.take(i as int) =~= irreps@);
    [start, end]
}

impl Taylor {
    /// Tells whether `make_checks` can be called on `irreps` and `pg`.
    pub fn can_make_checks(irreps: &Vec<(usize, Irrep)>, pg: &PointGroup) -> (can: bool)
        ensures
            can == checks_can_be_made(irreps@, *pg),
    {
        match pg {
            PointGroup::C1 => true,
            PointGroup::Cs | PointGroup::C2 | PointGroup::C2v => {
                let mut i: usize = 0;
                while i < irreps.len()
                    invariant
                        i <= irreps.len(),
                        *pg == PointGroup::Cs || *pg == PointGroup::C2 || *pg == PointGroup::C2v,
                        forall|k: int|
                            0 <= k < i ==> belongs(*pg, (#[trigger] irreps[k]).1) && (has_slot(
                                *pg,
                                irreps[k].1,
                            ) ==> irreps[k].0 < usize::MAX),
                    decreases irreps.len() - i,
                {
                    let entry = irreps[i];
                    if !is_member(pg, entry.1) {
                        return false;
                    }
                    if goes_into_a_range(pg, entry.1) && entry.0 == usize::MAX {
                        return false;
                    }
                    i = i + 1;
                }
                true
            },
            _ => false,
        }
    }

    /// The parity check and the equality check of a molecule of point group
    /// `pg`, from the representation of each coordinate. `C1` has no checks.
    /// For the other groups both checks hold the same ranges: one for each
    /// representation that is not totally symmetric, from the first
    /// coordinate listed with it to the greatest.
    pub fn make_checks(irreps: Vec<(usize, Irrep)>, pg: &PointGroup) -> (checks: (
        Option<Checks>,
        Option<Checks>,
    ))
        requires
            checks_can_be_made(irreps@, *pg),
        ensures
            *pg == PointGroup::C1 ==> checks.0 is None && checks.1 is None,
            *pg != PointGroup::C1 ==> checks.0 is Some && checks.1 is Some && checks.0->0@
                == ranges_for(irreps@, *pg) && checks.1->0@ == ranges_for(irreps@, *pg),
    {
        match pg {
            PointGroup::Cs | PointGroup::C2 => {
                assert forall|i: int|
                    0 <= i < irreps.len() && (#[trigger] irreps[i]).1
                        == Irrep::App implies irreps[i].0 < usize::MAX by {
                    assert(slot_label(*pg, 0) == Some(Irrep::App));
                }
                let first = span(&irreps, Irrep::App);
                let ranges = [first, [0, 0], [0, 0]];
                let modchecks = Checks(ranges);
                let eqchecks = Checks(ranges);
                assert(modchecks@ =~= ranges_for(irreps@, *pg));
                assert(eqchecks@ =~= ranges_for(irreps@, *pg));
                (Some(modchecks), Some(eqchecks))
            },
            PointGroup::C2v => {
                assert(slot_label(*pg, 0) == Some(Irrep::B1));
                assert(slot_label(*pg, 1) == Some(Irrep::B2));
                assert(slot_label(*pg, 2) == Some(Irrep::A2));
                let first = span(&irreps, Irrep::B1);
                let second = span(&irreps, Irrep::B2);
                let third = span(&irreps, Irrep::A2);
                let ranges = [first, second, third];
                let modchecks = Checks(ranges);
                let eqchecks = Checks(ranges);
                assert(modchecks@ =~= ranges_for(irreps@, *pg));
                assert(eqchecks@ =~= ranges_for(irreps@, *pg));
                (Some(modchecks), Some(eqchecks))
            },
            _ => (None, None),
        }
    }
}

} // verus!
