//! The expansion: every index tuple of `n` digits in base `m` whose digit sum
//! is below `m` and which the symmetry checks accept, in ascending order of
//! the linear index.
use crate::checks::accepts;
use crate::checks::accepts_row;
use crate::checks::fit_if_present;
use crate::checks::fits_if_present;
use crate::checks::pairs_of;
use crate::checks::ranges_are_well_formed;
use crate::checks::ranges_of;
use crate::checks::Checks;
use crate::digits::as_digits;
use crate::digits::checked_pow;
use crate::digits::decode;
use crate::digits::digit_sum;
use crate::digits::digits_below;
use crate::digits::encode;
use crate::digits::encode_digits;
use crate::digits::index_count;
use crate::digits::lemma_decode_digits_below;
use crate::digits::lemma_decode_encode;
use crate::digits::lemma_decode_len;
use crate::digits::lemma_decode_zero;
use crate::digits::lemma_encode_below;
use crate::digits::lemma_encode_decode;
use crate::digits::lemma_jump_is_sound;
use crate::digits::lemma_pow_unfold;
use crate::digits::lemma_skip_keeps_sum;
use crate::digits::lemma_skip_on_digits;
use crate::digits::lemma_skip_target_advances;
use crate::digits::lemma_skip_target_bound;
use crate::digits::lemma_zero_row_stays;
use crate::digits::range_total;
use crate::digits::skip_target;
use crate::error::TaylorError;
use vstd::arithmetic::power::pow;
use vstd::prelude::*;

verus! {

/// A Taylor series expansion of a function of `n` variables, of order
/// `m - 1`: the index tuples of its terms, in ascending order.
#[derive(Clone, Debug)]
pub struct Taylor {
    pub forces: Vec<Vec<usize>>,
}

impl View for Taylor {
    type V = Seq<Seq<nat>>;

    /// The index tuples as sequences of natural numbers.
    open spec fn view(&self) -> Seq<Seq<nat>> {
        self.forces@.map_values(|row: Vec<usize>| as_digits(row@))
    }
}

/// A row is kept when its digit sum is below `m` and the checks accept it.
pub open spec fn keeps(
    m: nat,
    modc: Option<Seq<(nat, nat)>>,
    eqc: Option<Seq<(nat, nat)>>,
    row: Seq<nat>,
) -> bool {
    digit_sum(row) < m && accepts(modc, eqc, row)
}

/// The rows that a scan of the linear indices below `count` keeps, in the
/// order of the scan.
pub open spec fn scan(
    count: nat,
    m: nat,
    n: nat,
    modc: Option<Seq<(nat, nat)>>,
    eqc: Option<Seq<(nat, nat)>>,
) -> Seq<Seq<nat>>
    decreases count,
{
    if count == 0 {
        Seq::empty()
    } else {
        let before = scan((count - 1) as nat, m, n, modc, eqc);
        let row = decode((count - 1) as nat, n, m);
        if keeps(m, modc, eqc, row) {
            before.push(row)
        } else {
            before
        }
    }
}

/// The Taylor set of `(m, n)` under the two optional checks: what a scan of
/// all `m` to the `n` index tuples keeps.
pub open spec fn taylor_set(
    m: nat,
    n: nat,
    modc: Option<Seq<(nat, nat)>>,
    eqc: Option<Seq<(nat, nat)>>,
) -> Seq<Seq<nat>> {
    scan(pow(m as int, n) as nat, m, n, modc, eqc)
}

/// A stretch of indices of which none is kept adds nothing to the scan.
pub proof fn lemma_scan_passes_over(
    from: nat,
    to: nat,
    m: nat,
    n: nat,
    modc: Option<Seq<(nat, nat)>>,
    eqc: Option<Seq<(nat, nat)>>,
)
    requires
        from <= to,
        forall|i: nat| from <= i < to ==> !keeps(m, modc, eqc, #[trigger] decode(i, n, m)),
    ensures
        scan(to, m, n, modc, eqc) == scan(from, m, n, modc, eqc),
    decreases to - from,
{
    if from < to {
        lemma_scan_passes_over(from, (to - 1) as nat, m, n, modc, eqc);
        assert(!keeps(m, modc, eqc, decode((to - 1) as nat, n, m)));
    }
}

impl Taylor {
    /// The digits of `index`: `n` of them in base `m`, most significant
    /// first.
    pub fn row(index: usize, n: usize, m: usize) -> (row: Vec<usize>)
        requires
            m >= 1 || n <= 1,
        ensures
            as_digits(row@) == decode(index as nat, n as nat, m as nat),
    {
        let mut digits: Vec<usize> = Vec::new();
        let mut filled: usize = 0;
        while filled < n
            invariant
                filled <= n,
                digits.len() == filled,
            decreases n - filled,
        {
            digits.push(0);
            filled = filled + 1;
        }
        let ghost whole = decode(index as nat, n as nat, m as nat);
        let mut rest: usize = index;
        let mut k: usize = n;
        assert(as_digits(digits@.subrange(n as int, n as int)) =~= Seq::<nat>::empty());
        assert(whole =~= decode(rest as nat, k as nat, m as nat) + as_digits(
            digits@.subrange(k as int, n as int),
        ));
        while k > 1
            invariant
                k <= n,
                n >= 1 ==> k >= 1,
                m >= 1 || n <= 1,
                digits.len() == n,
                whole == decode(rest as nat, k as nat, m as nat) + as_digits(
                    digits@.subrange(k as int, n as int),
                ),
            decreases k,
        {
            let ghost tail = as_digits(digits@.subrange(k as int, n as int));
            let ghost front = decode(rest as nat, k as nat, m as nat);
            k = k - 1;
            digits.set(k, rest % m);
            proof {
                let shorter = decode((rest / m) as nat, k as nat, m as nat);
                lemma_decode_len((rest / m) as nat, k as nat, m as nat);
                assert(front == shorter.push((rest % m) as nat));
                assert(as_digits(digits@.subrange(k as int, n as int)) =~= seq![
                    (rest % m) as nat,
                ] + tail);
                assert(shorter.push((rest % m) as nat) + tail =~= shorter + (seq![
                    (rest % m) as nat,
                ] + tail));
            }
            rest = rest / m;
        }
        if n >= 1 {
            let ghost tail = as_digits(digits@.subrange(1, n as int));
            digits.set(0, rest);
            proof {
                assert(decode(rest as nat, 1, m as nat) == seq![rest as nat]);
                assert(as_digits(digits@) =~= seq![rest as nat] + tail);
            }
        } else {
            assert(as_digits(digits@) =~= whole);
        }
        digits
    }

    /// Where the enumeration goes on after a row whose digit sum is too
    /// large. Scanning from the right, the first nonzero digit is set to zero
    /// and its left neighbour is raised by one; the index of the new row is
    /// returned. Where the digit is the first of the row, the result is `m`
    /// to the power `n`, the end of the enumeration. The result lies after
    /// the index of the row, unless the row is all zero, and no row between
    /// the two has a smaller digit sum than the row itself: the jump passes
    /// over nothing that could be accepted. The result may be `m` to the
    /// power `n`, so that number has to fit.
    pub fn next_row(row: Vec<usize>, n: usize, m: usize) -> (next: usize)
        requires
            row.len() == n,
            m >= 1,
            digits_below(as_digits(row@), m as nat),
            pow(m as int, n as nat) <= usize::MAX,
        ensures
            next == skip_target(encode(as_digits(row@), m as nat), n as nat, m as nat),
            next <= pow(m as int, n as nat),
            digit_sum(as_digits(row@)) > 0 ==> encode(as_digits(row@), m as nat) < next,
            forall|later: nat|
                encode(as_digits(row@), m as nat) <= later < next ==> digit_sum(as_digits(row@))
                    <= digit_sum(#[trigger] decode(later, n as nat, m as nat)),
    {
        let ghost before = as_digits(row@);
        let mut row = row;
        let mut carry: usize = 0;
        let ghost mut at: int = -1;
        let mut i: usize = n;
        while i > 0
            invariant_except_break
                at == -1,
                carry == 0,
                as_digits(row@) == before,
                forall|k: int| i <= k < n ==> before[k] == 0,
            invariant
                i <= n,
                row.len() == n,
                m >= 1,
                digits_below(before, m as nat),
                before.len() == n,
            ensures
                at >= -1,
                at == -1 ==> carry == 0 && as_digits(row@) == before && (forall|k: int|
                    0 <= k < n ==> before[k] == 0),
                at >= 0 ==> at < n && before[at] > 0 && (forall|k: int|
                    at < k < n ==> before[k] == 0),
                at > 0 ==> carry == 0 && as_digits(row@) == before.update(at, 0).update(
                    at - 1,
                    before[at - 1] + 1,
                ),
                at == 0 ==> carry == 1 && as_digits(row@) == before.update(0, 0),
            decreases i,
        {
            i = i - 1;
            assert(before[i as int] == row[i as int] as nat);
            if row[i] > 0 {
                row.set(i, 0);
                if i > 0 {
                    assert(before[i - 1] == row[i - 1] as nat);
                    assert(before[i - 1] < m);
                    let raised = row[i - 1] + 1;
                    row.set(i - 1, raised);
                    assert(as_digits(row@) =~= before.update(i as int, 0).update(
                        i - 1,
                        before[i - 1] + 1,
                    ));
                } else {
                    carry = 1;
                    assert(as_digits(row@) =~= before.update(0, 0));
                }
                proof {
                    at = i as int;
                }
                break ;
            }
        }
        proof {
            lemma_jump_is_sound(before, m as nat);
            if at == -1 {
                lemma_zero_row_stays(before, m as nat);
            } else {
                lemma_skip_on_digits(before, at, m as nat);
            }
        }
        encode_digits(carry, &row, m)
    }

    /// Builds the expansion of order `m - 1` in `n` variables under checks
    /// of any number of ranges. The rows are visited in ascending order of
    /// their linear index. A row whose digit sum is below `m` is kept when
    /// the checks accept it; from a row whose digit sum is too large the
    /// enumeration jumps to the next index at which the sum can be smaller.
    /// An order of zero and a row without coordinates describe no expansion:
    /// `try_with_ranges` turns them down.
    pub fn with_ranges(
        m: usize,
        n: usize,
        modranges: Option<&[[usize; 2]]>,
        eqranges: Option<&[[usize; 2]]>,
    ) -> (taylor: Self)
        requires
            m >= 1,
            n >= 1,
            pow(m as int, n as nat) <= usize::MAX,
            fit_if_present(modranges, n as nat),
            fit_if_present(eqranges, n as nat),
        ensures
            taylor@ == taylor_set(m as nat, n as nat, pairs_of(modranges), pairs_of(eqranges)),
            forall|i: int|
                0 <= i < taylor@.len() ==> (#[trigger] taylor@[i]).len() == n && digits_below(
                    taylor@[i],
                    m as nat,
                ) && digit_sum(taylor@[i]) < m,
    {
        let ghost modc = pairs_of(modranges);
        let ghost eqc = pairs_of(eqranges);
        let mut forces: Vec<Vec<usize>> = Vec::new();
        let last_index = index_count(m, n);
        let mut i: usize = 0;
        assert(forces@.map_values(|row: Vec<usize>| as_digits(row@)) =~= scan(
            0,
            m as nat,
            n as nat,
            modc,
            eqc,
        ));
        while i < last_index
            invariant
                m >= 1,
                n >= 1,
                i <= last_index,
                last_index == pow(m as int, n as nat),
                modc == pairs_of(modranges),
                eqc == pairs_of(eqranges),
                fit_if_present(modranges, n as nat),
                fit_if_present(eqranges, n as nat),
                forces@.map_values(|row: Vec<usize>| as_digits(row@)) == scan(
                    i as nat,
                    m as nat,
                    n as nat,
                    modc,
                    eqc,
                ),
            decreases last_index - i,
        {
            let row = Self::row(i, n, m);
            let ghost digits = as_digits(row@);
            proof {
                lemma_decode_digits_below(i as nat, n as nat, m as nat);
                assert(row@.len() == digits.len());
            }
            let total = range_total(&row, 0, n);
            if total < m as u128 {
                if accepts_row(modranges, eqranges, &row) {
                    let ghost kept = forces@.map_values(|row: Vec<usize>| as_digits(row@));
                    forces.push(row);
                    assert(forces@.map_values(|row: Vec<usize>| as_digits(row@)) =~= kept.push(
                        digits,
                    ));
                }
                i = i + 1;
            } else {
                proof {
                    if i == 0 {
                        lemma_decode_zero(n as nat, m as nat);
                    }
                    lemma_encode_decode(i as nat, n as nat, m as nat);
                    lemma_skip_target_advances(i as nat, n as nat, m as nat);
                    lemma_skip_target_bound(i as nat, n as nat, m as nat);
                    let target = skip_target(i as nat, n as nat, m as nat);
                    assert forall|later: nat| i <= later < target implies !keeps(
                        m as nat,
                        modc,
                        eqc,
                        #[trigger] decode(later, n as nat, m as nat),
                    ) by {
                        lemma_skip_keeps_sum(i as nat, later, n as nat, m as nat);
                    }
                    lemma_scan_passes_over(i as nat, target, m as nat, n as nat, modc, eqc);
                }
                i = Self::next_row(row, n, m);
            }
        }
        let taylor = Taylor { forces };
        proof {
            assert forall|i: int| 0 <= i < taylor@.len() implies (#[trigger] taylor@[i]).len() == n
                && digits_below(taylor@[i], m as nat) && digit_sum(taylor@[i]) < m by {
                assert(taylor@.contains(taylor@[i]));
                lemma_taylor_set_holds(m as nat, n as nat, modc, eqc, taylor@[i]);
            }
        }
        taylor
    }

    /// Builds the expansion as `with_ranges` does, after turning down the
    /// inputs that cannot describe one: a zero order, no coordinates, a
    /// check with a range that does not fit `n` coordinates, and more index
    /// tuples than a `usize` can count.
    pub fn try_with_ranges(
        m: usize,
        n: usize,
        modranges: Option<&[[usize; 2]]>,
        eqranges: Option<&[[usize; 2]]>,
    ) -> (built: Result<Self, TaylorError>)
        ensures
            built is Ok <==> m != 0 && n != 0 && fit_if_present(modranges, n as nat)
                && fit_if_present(eqranges, n as nat) && pow(m as int, n as nat) <= usize::MAX,
            built == Err::<Self, TaylorError>(TaylorError::ZeroOrder) <==> m == 0,
            built == Err::<Self, TaylorError>(TaylorError::ZeroCoordinates) <==> m != 0 && n == 0,
            built == Err::<Self, TaylorError>(TaylorError::MalformedModChecks) <==> m != 0 && n
                != 0 && !fit_if_present(modranges, n as nat),
            built == Err::<Self, TaylorError>(TaylorError::MalformedEqChecks) <==> m != 0 && n != 0
                && fit_if_present(modranges, n as nat) && !fit_if_present(eqranges, n as nat),
            built == Err::<Self, TaylorError>(TaylorError::TooManyTuples) <==> m != 0 && n != 0
                && fit_if_present(modranges, n as nat) && fit_if_present(eqranges, n as nat)
                && pow(m as int, n as nat) > usize::MAX,
            built is Ok ==> built->Ok_0@ == taylor_set(
                m as nat,
                n as nat,
                pairs_of(modranges),
                pairs_of(eqranges),
            ),
            built is Ok ==> forall|i: int|
                0 <= i < built->Ok_0@.len() ==> (#[trigger] built->Ok_0@[i]).len() == n
                    && digits_below(built->Ok_0@[i], m as nat) && digit_sum(built->Ok_0@[i]) < m,
    {
        if m == 0 {
            return Err(TaylorError::ZeroOrder);
        }
        if n == 0 {
            return Err(TaylorError::ZeroCoordinates);
        }
        let mod_ok = match modranges {
            Some(ranges) => ranges_are_well_formed(ranges, n),
            None => true,
        };
        if !mod_ok {
            return Err(TaylorError::MalformedModChecks);
        }
        let eq_ok = match eqranges {
            Some(ranges) => ranges_are_well_formed(ranges, n),
            None => true,
        };
        if !eq_ok {
            return Err(TaylorError::MalformedEqChecks);
        }
        if checked_pow(m, n).is_none() {
            return Err(TaylorError::TooManyTuples);
        }
        Ok(Taylor::with_ranges(m, n, modranges, eqranges))
    }

    /// Builds the expansion of order `m - 1` in `n` variables under the two
    /// optional checks of three ranges each, as `with_ranges` does. An order
    /// of zero and a row without coordinates describe no expansion:
    /// `try_new` turns them down.
    pub fn new(m: usize, n: usize, modchecks: Option<Checks>, eqchecks: Option<Checks>) -> (taylor:
        Self)
        requires
            m >= 1,
            n >= 1,
            pow(m as int, n as nat) <= usize::MAX,
            fits_if_present(modchecks, n as nat),
            fits_if_present(eqchecks, n as nat),
        ensures
            taylor@ == taylor_set(m as nat, n as nat, ranges_of(modchecks), ranges_of(eqchecks)),
            forall|i: int|
                0 <= i < taylor@.len() ==> (#[trigger] taylor@[i]).len() == n && digits_below(
                    taylor@[i],
                    m as nat,
                ) && digit_sum(taylor@[i]) < m,
    {
        let modranges = match &modchecks {
            Some(checks) => Some(checks.0.as_slice()),
            None => None,
        };
        let eqranges = match &eqchecks {
            Some(checks) => Some(checks.0.as_slice()),
            None => None,
        };
        Taylor::with_ranges(m, n, modranges, eqranges)
    }

    /// Builds the expansion as `new` does, after turning down the inputs
    /// that cannot describe one, as `try_with_ranges` does.
    pub fn try_new(
        m: usize,
        n: usize,
        modchecks: Option<Checks>,
        eqchecks: Option<Checks>,
    ) -> (built: Result<Self, TaylorError>)
        ensures
            built is Ok <==> m != 0 && n != 0 && fits_if_present(modchecks, n as nat)
                && fits_if_present(eqchecks, n as nat) && pow(m as int, n as nat) <= usize::MAX,
            built == Err::<Self, TaylorError>(TaylorError::ZeroOrder) <==> m == 0,
            built == Err::<Self, TaylorError>(TaylorError::ZeroCoordinates) <==> m != 0 && n == 0,
            built == Err::<Self, TaylorError>(TaylorError::MalformedModChecks) <==> m != 0 && n
                != 0 && !fits_if_present(modchecks, n as nat),
            built == Err::<Self, TaylorError>(TaylorError::MalformedEqChecks) <==> m != 0 && n != 0
                && fits_if_present(modchecks, n as nat) && !fits_if_present(eqchecks, n as nat),
            built == Err::<Self, TaylorError>(TaylorError::TooManyTuples) <==> m != 0 && n != 0
                && fits_if_present(modchecks, n as nat) && fits_if_present(eqchecks, n as nat)
                && pow(m as int, n as nat) > usize::MAX,
            built is Ok ==> built->Ok_0@ == taylor_set(
                m as nat,
                n as nat,
                ranges_of(modchecks),
                ranges_of(eqchecks),
            ),
            built is Ok ==> forall|i: int|
                0 <= i < built->Ok_0@.len() ==> (#[trigger] built->Ok_0@[i]).len() == n
                    && digits_below(built->Ok_0@[i], m as nat) && digit_sum(built->Ok_0@[i]) < m,
    {
        let modranges = match &modchecks {
            Some(checks) => Some(checks.0.as_slice()),
            None => None,
        };
        let eqranges = match &eqchecks {
            Some(checks) => Some(checks.0.as_slice()),
            None => None,
        };
        Taylor::try_with_ranges(m, n, modranges, eqranges)
    }
}

/// With `m = 0` no row has a digit sum below `m`: there is no Taylor set to
/// enumerate, which is why an order of zero is turned down.
pub proof fn lemma_nothing_below_order_zero(
    n: nat,
    modc: Option<Seq<(nat, nat)>>,
    eqc: Option<Seq<(nat, nat)>>,
)
    ensures
        taylor_set(0, n, modc, eqc) == Seq::<Seq<nat>>::empty(),
{
    lemma_pow_unfold(0, 0);
    if n > 0 {
        vstd::arithmetic::power::lemma0_pow(n);
    } else {
        assert(scan(0, 0, n, modc, eqc) == Seq::<Seq<nat>>::empty());
    }
}

/// What a scan keeps: the rows of the indices below `count` that are kept.
pub proof fn lemma_scan_holds(
    count: nat,
    m: nat,
    n: nat,
    modc: Option<Seq<(nat, nat)>>,
    eqc: Option<Seq<(nat, nat)>>,
    row: Seq<nat>,
)
    ensures
        scan(count, m, n, modc, eqc).contains(row) <==> keeps(m, modc, eqc, row) && exists|i: nat|
            i < count && #[trigger] decode(i, n, m) == row,
    decreases count,
{
    if count > 0 {
        let before = scan((count - 1) as nat, m, n, modc, eqc);
        let all = scan(count, m, n, modc, eqc);
        let newest = decode((count - 1) as nat, n, m);
        lemma_scan_holds((count - 1) as nat, m, n, modc, eqc, row);
        if all.contains(row) {
            let t = choose|t: int| 0 <= t < all.len() && all[t] == row;
            if t < before.len() {
                assert(before[t] == row);
                assert(before.contains(row));
            } else {
                assert(newest == row);
            }
        }
        if keeps(m, modc, eqc, row) && exists|i: nat| i < count && #[trigger] decode(i, n, m) == row {
            let i = choose|i: nat| i < count && #[trigger] decode(i, n, m) == row;
            if i < count - 1 {
                assert(before.contains(row));
                let t = choose|t: int| 0 <= t < before.len() && before[t] == row;
                assert(all[t] == row);
            } else {
                assert(all[all.len() - 1] == row);
            }
        }
    }
}

/// The Taylor set is complete and holds nothing else: a row is in it exactly
/// when it has `n` digits below `m`, a digit sum below `m`, and the checks
/// accept it.
pub proof fn lemma_taylor_set_holds(
    m: nat,
    n: nat,
    modc: Option<Seq<(nat, nat)>>,
    eqc: Option<Seq<(nat, nat)>>,
    row: Seq<nat>,
)
    requires
        m >= 1,
    ensures
        taylor_set(m, n, modc, eqc).contains(row) <==> row.len() == n && digits_below(row, m)
            && keeps(m, modc, eqc, row),
{
    let count = pow(m as int, n) as nat;
    lemma_pow_unfold(m, n);
    lemma_scan_holds(count, m, n, modc, eqc, row);
    if taylor_set(m, n, modc, eqc).contains(row) {
        let i = choose|i: nat| i < count && #[trigger] decode(i, n, m) == row;
        lemma_decode_digits_below(i, n, m);
    }
    if row.len() == n && digits_below(row, m) && keeps(m, modc, eqc, row) {
        lemma_encode_below(row, m);
        lemma_decode_encode(row, m);
        assert(decode(encode(row, m), n, m) == row);
    }
}

/// A scan lists its rows in ascending order of their linear index.
pub proof fn lemma_scan_ascends(
    count: nat,
    m: nat,
    n: nat,
    modc: Option<Seq<(nat, nat)>>,
    eqc: Option<Seq<(nat, nat)>>,
)
    requires
        m >= 1,
        n >= 1,
    ensures
        forall|a: int|
            0 <= a < scan(count, m, n, modc, eqc).len() ==> encode(
                #[trigger] scan(count, m, n, modc, eqc)[a],
                m,
            ) < count,
        forall|a: int, b: int|
            0 <= a < b < scan(count, m, n, modc, eqc).len() ==> encode(
                #[trigger] scan(count, m, n, modc, eqc)[a],
                m,
            ) < encode(#[trigger] scan(count, m, n, modc, eqc)[b], m),
    decreases count,
{
    if count > 0 {
        let before = scan((count - 1) as nat, m, n, modc, eqc);
        let all = scan(count, m, n, modc, eqc);
        lemma_scan_ascends((count - 1) as nat, m, n, modc, eqc);
        lemma_encode_decode((count - 1) as nat, n, m);
        assert forall|a: int| 0 <= a < all.len() implies encode(#[trigger] all[a], m) < count by {
            if a < before.len() {
                assert(all[a] == before[a]);
            }
        }
        assert forall|a: int, b: int| 0 <= a < b < all.len() implies encode(#[trigger] all[a], m)
            < encode(#[trigger] all[b], m) by {
            assert(all[a] == before[a]);
            if b < before.len() {
                assert(all[b] == before[b]);
            }
        }
    }
}

/// The Taylor set lists its rows in ascending order of their linear index.
pub proof fn lemma_taylor_set_ascends(
    m: nat,
    n: nat,
    modc: Option<Seq<(nat, nat)>>,
    eqc: Option<Seq<(nat, nat)>>,
    a: int,
    b: int,
)
    requires
        m >= 1,
        n >= 1,
        0 <= a < b < taylor_set(m, n, modc, eqc).len(),
    ensures
        encode(taylor_set(m, n, modc, eqc)[a], m) < encode(taylor_set(m, n, modc, eqc)[b], m),
{
    lemma_scan_ascends(pow(m as int, n) as nat, m, n, modc, eqc);
}

} // verus!
