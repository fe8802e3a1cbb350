//! Symmetry checks: digit-range predicates that decide which index tuples of
//! an expansion are kept. A check is a list of ranges of any length;
//! `Checks` is the usual list of three.
use crate::digits::as_digits;
use crate::digits::range_sum;
use crate::digits::range_total;
use vstd::prelude::*;

verus! {

/// Three digit ranges, each a `[start, end]` pair that is 1-indexed and
/// inclusive. A range whose `start` is 0 is inactive.
#[derive(Clone, Debug)]
pub struct Checks(pub [[usize; 2]; 3]);

/// A range is usable on rows of length `n` when it is inactive or lies,
/// 1-indexed and with `start <= end`, inside the row.
pub open spec fn range_fits(range: (nat, nat), n: nat) -> bool {
    range.0 == 0 || range.0 <= range.1 <= n
}

/// Every range of `ranges` is usable on rows of length `n`.
pub open spec fn ranges_fit(ranges: Seq<(nat, nat)>, n: nat) -> bool {
    forall|i: int| 0 <= i < ranges.len() ==> range_fits(#[trigger] ranges[i], n)
}

/// The parity rule for one range: an inactive range asks nothing, an active
/// one asks for an even digit sum.
pub open spec fn range_is_even(range: (nat, nat), row: Seq<nat>) -> bool {
    range.0 >= 1 ==> range_sum(row, range.0 - 1, range.1 as int) % 2 == 0
}

/// The equality rule for one range: it must be active and its digits must
/// sum to exactly 1. Unlike the parity rule, this one fails on an inactive
/// range.
pub open spec fn range_is_one(range: (nat, nat), row: Seq<nat>) -> bool {
    range.0 >= 1 && range_sum(row, range.0 - 1, range.1 as int) == 1
}

/// The parity check: no active range has an odd digit sum.
pub open spec fn mod_passes(ranges: Seq<(nat, nat)>, row: Seq<nat>) -> bool {
    forall|i: int| 0 <= i < ranges.len() ==> range_is_even(#[trigger] ranges[i], row)
}

/// The equality check: every range is active and sums to 1.
pub open spec fn eq_passes(ranges: Seq<(nat, nat)>, row: Seq<nat>) -> bool {
    forall|i: int| 0 <= i < ranges.len() ==> range_is_one(#[trigger] ranges[i], row)
}

/// A list of `[start, end]` arrays as `(start, end)` pairs.
pub open spec fn pairs(ranges: Seq<[usize; 2]>) -> Seq<(nat, nat)> {
    Seq::new(ranges.len(), |i: int| (ranges[i]@[0] as nat, ranges[i]@[1] as nat))
}

impl View for Checks {
    type V = Seq<(nat, nat)>;

    /// The ranges as `(start, end)` pairs, in slot order.
    open spec fn view(&self) -> Seq<(nat, nat)> {
        pairs(self.0@)
    }
}

/// Tells whether every range is inactive or lies inside a row of length `n`
/// with `start <= end`.
pub fn ranges_are_well_formed(ranges: &[[usize; 2]], n: usize) -> (ok: bool)
    ensures
        ok == ranges_fit(pairs(ranges@), n as nat),
{
    let ghost list = pairs(ranges@);
    let mut i: usize = 0;
    while i < ranges.len()
        invariant
            i <= ranges.len(),
            list == pairs(ranges@),
            forall|j: int| 0 <= j < i ==> range_fits(#[trigger] list[j], n as nat),
        decreases ranges.len() - i,
    {
        let start = ranges[i][0];
        let end = ranges[i][1];
        assert(list[i as int] == (start as nat, end as nat));
        if start != 0 && !(start <= end && end <= n) {
            return false;
        }
        i = i + 1;
    }
    true
}

/// The parity check of `row` against any number of ranges: fails when some
/// active range has an odd digit sum.
pub fn mod_check_ranges(ranges: &[[usize; 2]], row: &Vec<usize>) -> (ok: bool)
    requires
        ranges_fit(pairs(ranges@), row.len() as nat),
    ensures
        ok == mod_passes(pairs(ranges@), as_digits(row@)),
{
    let ghost list = pairs(ranges@);
    let mut i: usize = 0;
    while i < ranges.len()
        invariant
            i <= ranges.len(),
            list == pairs(ranges@),
            ranges_fit(list, row.len() as nat),
            forall|j: int| 0 <= j < i ==> range_is_even(#[trigger] list[j], as_digits(row@)),
        decreases ranges.len() - i,
    {
        let start = ranges[i][0];
        let end = ranges[i][1];
        assert(list[i as int] == (start as nat, end as nat));
        assert(range_fits(list[i as int], row.len() as nat));
        if start >= 1 {
            let total = range_total(row, start - 1, end);
            if total % 2 != 0 {
                return false;
            }
        }
        i = i + 1;
    }
    true
}

/// The equality check of `row` against any number of ranges: passes when
/// every range is active and its digits sum to exactly 1. One inactive range
/// fails the whole check, where the parity check would pass over it.
pub fn eq_check_ranges(ranges: &[[usize; 2]], row: &Vec<usize>) -> (ok: bool)
    requires
        ranges_fit(pairs(ranges@), row.len() as nat),
    ensures
        ok == eq_passes(pairs(ranges@), as_digits(row@)),
{
    let ghost list = pairs(ranges@);
    let mut i: usize = 0;
    while i < ranges.len()
        invariant
            i <= ranges.len(),
            list == pairs(ranges@),
            ranges_fit(list, row.len() as nat),
            forall|j: int| 0 <= j < i ==> range_is_one(#[trigger] list[j], as_digits(row@)),
        decreases ranges.len() - i,
    {
        let start = ranges[i][0];
        let end = ranges[i][1];
        assert(list[i as int] == (start as nat, end as nat));
        assert(range_fits(list[i as int], row.len() as nat));
        if start < 1 {
            return false;
        }
        let total = range_total(row, start - 1, end);
        if total != 1 {
            return false;
        }
        i = i + 1;
    }
    true
}

impl Checks {
    /// Three inactive ranges.
    pub fn new() -> (checks: Self)
        ensures
            checks.0@ == seq![[0usize, 0usize], [0usize, 0usize], [0usize, 0usize]],
            forall|i: int| 0 <= i < 3 ==> #[trigger] checks@[i] == (0nat, 0nat),
    {
        Self([[0, 0], [0, 0], [0, 0]])
    }

    /// Writes the start (`index.1 == 0`) or the end (`index.1 == 1`) of the
    /// range in slot `index.0`.
    pub fn set(&mut self, index: (usize, usize), bound: usize)
        requires
            index.0 < 3,
            index.1 < 2,
        ensures
            final(self)@ == old(self)@.update(
                index.0 as int,
                if index.1 == 0 {
                    (bound as nat, old(self)@[index.0 as int].1)
                } else {
                    (old(self)@[index.0 as int].0, bound as nat)
                },
            ),
    {
        let mut range = self.0[index.0];
        range[index.1] = bound;
        self.0[index.0] = range;
    }

    /// Every range is usable on rows of length `n`.
    pub open spec fn fits(&self, n: nat) -> bool {
        ranges_fit(self@, n)
    }

    /// Tells whether every range is inactive or lies inside a row of length
    /// `n` with `start <= end`.
    pub fn is_well_formed(&self, n: usize) -> (ok: bool)
        ensures
            ok == self.fits(n as nat),
    {
        ranges_are_well_formed(self.0.as_slice(), n)
    }

    /// The parity check of `row`: fails when some active range has an odd
    /// digit sum.
    pub fn mod_check(&self, row: &Vec<usize>) -> (ok: bool)
        requires
            self.fits(row.len() as nat),
        ensures
            ok == mod_passes(self@, as_digits(row@)),
    {
        mod_check_ranges(self.0.as_slice(), row)
    }

    /// The equality check of `row`: passes when every range is active and
    /// its digits sum to exactly 1. One inactive range fails the whole
    /// check, where the parity check would pass over it.
    pub fn eq_check(&self, row: &Vec<usize>) -> (ok: bool)
        requires
            self.fits(row.len() as nat),
        ensures
            ok == eq_passes(self@, as_digits(row@)),
    {
        eq_check_ranges(self.0.as_slice(), row)
    }
}

/// The ranges of a check that may be absent.
pub open spec fn ranges_of(checks: Option<Checks>) -> Option<Seq<(nat, nat)>> {
    match checks {
        Some(c) => Some(c@),
        None => None,
    }
}

/// A check that may be absent is usable on rows of length `n`.
pub open spec fn fits_if_present(checks: Option<Checks>, n: nat) -> bool {
    match checks {
        Some(c) => c.fits(n),
        None => true,
    }
}

/// The pairs of a list of ranges that may be absent.
pub open spec fn pairs_of(ranges: Option<&[[usize; 2]]>) -> Option<Seq<(nat, nat)>> {
    match ranges {
        Some(r) => Some(pairs(r@)),
        None => None,
    }
}

/// A list of ranges that may be absent is usable on rows of length `n`.
pub open spec fn fit_if_present(ranges: Option<&[[usize; 2]]>, n: nat) -> bool {
    match ranges {
        Some(r) => ranges_fit(pairs(r@), n),
        None => true,
    }
}

/// The acceptance rule. Each check counts as passed when it is absent. A row
/// is rejected when the parity check is absent and the equality check fails,
/// when the equality check is absent and the parity check fails, or when
/// both fail.
pub open spec fn accepts(
    modc: Option<Seq<(nat, nat)>>,
    eqc: Option<Seq<(nat, nat)>>,
    row: Seq<nat>,
) -> bool {
    let mc = match modc {
        Some(ranges) => mod_passes(ranges, row),
        None => true,
    };
    let ec = match eqc {
        Some(ranges) => eq_passes(ranges, row),
        None => true,
    };
    !((modc is None && !ec) || (eqc is None && !mc) || (!ec && !mc))
}

/// How the two checks combine: with both present a row needs to pass one of
/// them, never both; with one present that one decides; with none present
/// every row is accepted.
pub proof fn lemma_checks_combine(
    modc: Option<Seq<(nat, nat)>>,
    eqc: Option<Seq<(nat, nat)>>,
    row: Seq<nat>,
)
    ensures
        modc is Some && eqc is Some ==> (accepts(modc, eqc, row) <==> mod_passes(modc->0, row)
            || eq_passes(eqc->0, row)),
        modc is Some && eqc is None ==> (accepts(modc, eqc, row) <==> mod_passes(modc->0, row)),
        modc is None && eqc is Some ==> (accepts(modc, eqc, row) <==> eq_passes(eqc->0, row)),
        modc is None && eqc is None ==> accepts(modc, eqc, row),
{
}

/// Applies the acceptance rule to `row`.
pub fn accepts_row(
    modranges: Option<&[[usize; 2]]>,
    eqranges: Option<&[[usize; 2]]>,
    row: &Vec<usize>,
) -> (ok: bool)
    requires
        fit_if_present(modranges, row.len() as nat),
        fit_if_present(eqranges, row.len() as nat),
    ensures
        ok == accepts(pairs_of(modranges), pairs_of(eqranges), as_digits(row@)),
{
    let mc = match modranges {
        Some(ranges) => mod_check_ranges(ranges, row),
        None => true,
    };
    let ec = match eqranges {
        Some(ranges) => eq_check_ranges(ranges, row),
        None => true,
    };
    !((modranges.is_none() && !ec) || (eqranges.is_none() && !mc) || (!ec && !mc))
}

impl core::ops::Index<(usize, usize)> for Checks {
    type Output = usize;

    /// The start (`index.1 == 0`) or the end (`index.1 == 1`) of the range
    /// in slot `index.0`.
    fn index(&self, index: (usize, usize)) -> (bound: &usize)
        ensures
            *bound == self.0@[index.0 as int]@[index.1 as int],
    {
        &self.0[index.0][index.1]
    }
}

impl vstd::std_specs::core::IndexSpecImpl<(usize, usize)> for Checks {
    open spec fn index_req(&self, index: &(usize, usize)) -> bool {
        index.0 < 3 && index.1 < 2
    }
}

impl Default for Checks {
    /// Three inactive ranges.
    fn default() -> (checks: Self)
        ensures
            checks.0@ == seq![[0usize, 0usize], [0usize, 0usize], [0usize, 0usize]],
    {
        Checks::new()
    }
}

} // verus!
