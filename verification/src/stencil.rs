//! Sample points: the signed offsets at which a term of the expansion is
//! probed by central differences, and their Cartesian products.
use crate::digits::as_digits;
use crate::expansion::Taylor;
use crate::order::as_ints;
use crate::order::rows_view;
use vstd::prelude::*;

verus! {

/// `x` is one of the offsets for a derivative of order `d`: of the parity of
/// `d` and of magnitude at most `d`.
pub open spec fn is_offset(d: nat, x: int) -> bool {
    -d <= x <= d && (d - x) % 2 == 0
}

/// The offsets for a derivative of order `d`, ascending: `-d`, `-d + 2`, and
/// so on up to `d`.
pub open spec fn stencil(d: nat) -> Seq<int> {
    Seq::new(d + 1, |j: int| 2 * j - d)
}

/// The stencil of `d` holds exactly the offsets of `d`.
pub proof fn lemma_stencil_holds_offsets(d: nat, x: int)
    ensures
        stencil(d).contains(x) <==> is_offset(d, x),
{
    if stencil(d).contains(x) {
        let j = choose|j: int| 0 <= j < stencil(d).len() && stencil(d)[j] == x;
        assert((d - (2 * j - d)) % 2 == 0) by (nonlinear_arith)
            requires
                0 <= j,
        ;
    }
    if is_offset(d, x) {
        let j = (x + d) / 2;
        assert(2 * j == x + d) by (nonlinear_arith)
            requires
                j == (x + d) / 2,
                (d - x) % 2 == 0,
        ;
        assert(stencil(d)[j] == x);
    }
}

/// Every vector of `prefixes`, in turn, with each entry of `pool`, in turn,
/// appended to it.
pub open spec fn extend(prefixes: Seq<Seq<int>>, pool: Seq<int>) -> Seq<Seq<int>>
    decreases prefixes.len(),
{
    if prefixes.len() == 0 {
        Seq::empty()
    } else {
        extend(prefixes.drop_last(), pool) + Seq::new(
            pool.len(),
            |j: int| prefixes.last().push(pool[j]),
        )
    }
}

/// The Cartesian product of `pools`: every way to pick one entry from each
/// pool, the picks from the last pool changing fastest.
pub open spec fn product(pools: Seq<Seq<int>>) -> Seq<Seq<int>>
    decreases pools.len(),
{
    if pools.len() == 0 {
        seq![Seq::empty()]
    } else {
        extend(product(pools.drop_last()), pools.last())
    }
}

/// What `extend` holds: the vectors that are a member of `prefixes` followed
/// by a member of `pool`.
pub proof fn lemma_extend_holds(prefixes: Seq<Seq<int>>, pool: Seq<int>, v: Seq<int>)
    ensures
        extend(prefixes, pool).contains(v) <==> v.len() > 0 && prefixes.contains(v.drop_last())
            && pool.contains(v.last()),
    decreases prefixes.len(),
{
    if prefixes.len() > 0 {
        let front = extend(prefixes.drop_last(), pool);
        let back = Seq::new(pool.len(), |j: int| prefixes.last().push(pool[j]));
        lemma_extend_holds(prefixes.drop_last(), pool, v);
        if extend(prefixes, pool).contains(v) {
            let i = choose|i: int| 0 <= i < (front + back).len() && (front + back)[i] == v;
            if i < front.len() {
                assert(front[i] == v);
                assert(front.contains(v));
                let a = choose|a: int|
                    0 <= a < prefixes.drop_last().len() && prefixes.drop_last()[a] == v.drop_last();
                assert(prefixes[a] == v.drop_last());
            } else {
                let j = i - front.len();
                assert(back[j] == v);
                assert(v.drop_last() =~= prefixes.last());
                assert(prefixes[prefixes.len() - 1] == v.drop_last());
                assert(pool[j] == v.last());
            }
        }
        if v.len() > 0 && prefixes.contains(v.drop_last()) && pool.contains(v.last()) {
            let a = choose|a: int| 0 <= a < prefixes.len() && prefixes[a] == v.drop_last();
            if a < prefixes.len() - 1 {
                assert(prefixes.drop_last()[a] == v.drop_last());
                assert(front.contains(v));
                let i = choose|i: int| 0 <= i < front.len() && front[i] == v;
                assert((front + back)[i] == v);
            } else {
                let j = choose|j: int| 0 <= j < pool.len() && pool[j] == v.last();
                assert(back[j] =~= v);
                assert((front + back)[front.len() + j] == v);
            }
        }
    }
}

/// What the product holds: the vectors with one entry per pool, each entry
/// a member of its pool.
pub proof fn lemma_product_holds(pools: Seq<Seq<int>>, v: Seq<int>)
    ensures
        product(pools).contains(v) <==> v.len() == pools.len() && forall|k: int|
            0 <= k < pools.len() ==> (#[trigger] pools[k]).contains(v[k]),
    decreases pools.len(),
{
    if pools.len() == 0 {
        let only = seq![Seq::<int>::empty()];
        if product(pools).contains(v) {
            let i = choose|i: int| 0 <= i < only.len() && only[i] == v;
            assert(only[i].len() == 0);
        }
        if v.len() == 0 {
            assert(v =~= Seq::<int>::empty());
            assert(only[0] == v);
        }
    } else {
        let head = pools.drop_last();
        lemma_extend_holds(product(head), pools.last(), v);
        if v.len() > 0 {
            lemma_product_holds(head, v.drop_last());
            if product(pools).contains(v) {
                assert forall|k: int| 0 <= k < pools.len() implies (#[trigger] pools[k]).contains(
                    v[k],
                ) by {
                    if k < pools.len() - 1 {
                        assert(head[k].contains(v.drop_last()[k]));
                    }
                }
            }
            if v.len() == pools.len() && forall|k: int|
                0 <= k < pools.len() ==> (#[trigger] pools[k]).contains(v[k]) {
                assert forall|k: int| 0 <= k < head.len() implies (#[trigger] head[k]).contains(
                    v.drop_last()[k],
                ) by {
                    assert(pools[k].contains(v[k]));
                }
                assert(pools[pools.len() - 1].contains(v[v.len() - 1]));
            }
        }
    }
}

impl Taylor {
    /// The Cartesian product of the pools: every choice of one entry per pool,
    /// as a vector, the choice from the last pool changing fastest.
    pub fn cart_prod(pools: Vec<Vec<isize>>) -> (result: Vec<Vec<isize>>)
        ensures
            rows_view(result@) == product(rows_view(pools@)),
    {
        let ghost all = rows_view(pools@);
        let mut result: Vec<Vec<isize>> = Vec::new();
        result.push(Vec::new());
        let mut p: usize = 0;
        proof {
            assert(all.take(0) =~= Seq::<Seq<int>>::empty());
            assert(as_ints(result[0]@) =~= Seq::<int>::empty());
            assert(rows_view(result@) =~= seq![Seq::<int>::empty()]);
        }
        while p < pools.len()
            invariant
                p <= pools.len(),
                all == rows_view(pools@),
                rows_view(result@) == product(all.take(p as int)),
            decreases pools.len() - p,
        {
            let pool = &pools[p];
            let ghost entries = as_ints(pool@);
            let ghost prefixes = rows_view(result@);
            let mut tmp: Vec<Vec<isize>> = Vec::new();
            let mut ix: usize = 0;
            proof {
                assert(prefixes.take(0) =~= Seq::<Seq<int>>::empty());
                assert(rows_view(tmp@) =~= extend(prefixes.take(0), entries));
            }
            while ix < result.len()
                invariant
                    ix <= result.len(),
                    entries == as_ints(pool@),
                    prefixes == rows_view(result@),
                    rows_view(tmp@) == extend(prefixes.take(ix as int), entries),
                decreases result.len() - ix,
            {
                let ghost front = rows_view(tmp@);
                let ghost x = prefixes[ix as int];
                let mut iy: usize = 0;
                assert(front + Seq::new(0, |j: int| x.push(entries[j])) =~= front);
                while iy < pool.len()
                    invariant
                        iy <= pool.len(),
                        ix < result.len(),
                        entries == as_ints(pool@),
                        prefixes == rows_view(result@),
                        x == prefixes[ix as int],
                        rows_view(tmp@) == front + Seq::new(iy as nat, |j: int| x.push(entries[j])),
                    decreases pool.len() - iy,
                {
                    let ghost sofar = rows_view(tmp@);
                    let mut a = result[ix].clone();
                    assert(a@ =~= result[ix as int]@);
                    a.push(pool[iy]);
                    tmp.push(a);
                    proof {
                        assert(as_ints(a@) =~= x.push(entries[iy as int]));
                        assert(rows_view(tmp@) =~= sofar.push(as_ints(a@)));
                        assert(sofar.push(x.push(entries[iy as int])) =~= front + Seq::new(
                            (iy + 1) as nat,
                            |j: int| x.push(entries[j]),
                        ));
                    }
                    iy = iy + 1;
                }
                proof {
                    assert(prefixes.take(ix + 1).drop_last() =~= prefixes.take(ix as int));
                    assert(prefixes.take(ix + 1).last() == x);
                }
                ix = ix + 1;
            }
            proof {
                assert(prefixes.take(ix as int) =~= prefixes);
                assert(all.take(p + 1).drop_last() =~= all.take(p as int));
                assert(all.take(p + 1).last() == entries);
            }
            result = tmp;
            p = p + 1;
        }
        assert(all.take(p as int) =~= all);
        result
    }
}

/// The digits of a row as integers.
pub open spec fn digits_as_ints(row: Seq<nat>) -> Seq<int> {
    row.map_values(|d: nat| d as int)
}

/// Every digit of `row` can be held, with either sign, by an `isize`.
pub open spec fn digits_fit(row: Seq<nat>) -> bool {
    forall|k: int| 0 <= k < row.len() ==> #[trigger] row[k] <= isize::MAX
}

/// The positions of the nonzero digits of `row`, ascending.
pub open spec fn nonzero_positions(row: Seq<nat>) -> Seq<int>
    decreases row.len(),
{
    if row.len() == 0 {
        Seq::empty()
    } else if row.last() != 0 {
        nonzero_positions(row.drop_last()).push(row.len() - 1)
    } else {
        nonzero_positions(row.drop_last())
    }
}

/// The stencils of the digits of `row` at `positions`.
pub open spec fn pools_at(row: Seq<nat>, positions: Seq<int>) -> Seq<Seq<int>> {
    positions.map_values(|k: int| stencil(row[k]))
}

/// `base` with `values[i]` written at `positions[i]`, for every `i`.
pub open spec fn place(base: Seq<int>, positions: Seq<int>, values: Seq<int>) -> Seq<int>
    decreases positions.len(),
{
    if positions.len() == 0 {
        base
    } else {
        place(base, positions.drop_last(), values.drop_last()).update(
            positions.last(),
            values.last(),
        )
    }
}

/// The sample points that one row asks for, in the order in which they are
/// made: each member of the product of the stencils of the nonzero digits,
/// written over the row at the positions of those digits.
pub open spec fn row_samples(row: Seq<nat>) -> Seq<Seq<int>> {
    let positions = nonzero_positions(row);
    product(pools_at(row, positions)).map_values(
        |c: Seq<int>| place(digits_as_ints(row), positions, c),
    )
}

/// `v` is a sample point of `row`: as long as the row, and at each position
/// an offset of the digit there. Where the digit is 0 the entry is 0.
pub open spec fn is_sample_of(row: Seq<nat>, v: Seq<int>) -> bool {
    v.len() == row.len() && forall|k: int| 0 <= k < row.len() ==> is_offset(row[k], #[trigger] v[k])
}

/// The nonzero positions are ascending positions of `row`, hold nonzero
/// digits, and leave no nonzero digit out.
pub proof fn lemma_nonzero_positions(row: Seq<nat>)
    ensures
        forall|i: int|
            0 <= i < nonzero_positions(row).len() ==> 0 <= (#[trigger] nonzero_positions(row)[i])
                < row.len() && row[nonzero_positions(row)[i]] != 0,
        forall|i: int, j: int|
            0 <= i < j < nonzero_positions(row).len() ==> nonzero_positions(row)[i]
                < nonzero_positions(row)[j],
        forall|k: int| 0 <= k < row.len() && row[k] != 0 ==> nonzero_positions(row).contains(k),
    decreases row.len(),
{
    if row.len() > 0 {
        let head = row.drop_last();
        let before = nonzero_positions(head);
        let all = nonzero_positions(row);
        lemma_nonzero_positions(head);
        assert forall|i: int| 0 <= i < all.len() implies 0 <= (#[trigger] all[i]) < row.len()
            && row[all[i]] != 0 by {
            if i < before.len() {
                assert(all[i] == before[i]);
                assert(head[before[i]] == row[before[i]]);
            }
        }
        assert forall|i: int, j: int| 0 <= i < j < all.len() implies all[i] < all[j] by {
            assert(all[i] == before[i]);
            if j < before.len() {
                assert(all[j] == before[j]);
            }
        }
        assert forall|k: int| 0 <= k < row.len() && row[k] != 0 implies all.contains(k) by {
            if k < row.len() - 1 {
                assert(head[k] != 0);
                let i = choose|i: int| 0 <= i < before.len() && before[i] == k;
                assert(all[i] == k);
            } else {
                assert(all[all.len() - 1] == k);
            }
        }
    }
}

/// What `place` leaves at position `k`: the value written there, or the
/// entry of `base` where nothing was written.
pub proof fn lemma_place_at(base: Seq<int>, positions: Seq<int>, values: Seq<int>, k: int)
    requires
        positions.len() == values.len(),
        forall|i: int| 0 <= i < positions.len() ==> 0 <= #[trigger] positions[i] < base.len(),
        forall|i: int, j: int| 0 <= i < j < positions.len() ==> positions[i] < positions[j],
        0 <= k < base.len(),
    ensures
        place(base, positions, values).len() == base.len(),
        forall|i: int|
            0 <= i < positions.len() && #[trigger] positions[i] == k ==> place(
                base,
                positions,
                values,
            )[k] == values[i],
        (forall|i: int| 0 <= i < positions.len() ==> #[trigger] positions[i] != k) ==> place(
            base,
            positions,
            values,
        )[k] == base[k],
    decreases positions.len(),
{
    if positions.len() > 0 {
        let head = positions.drop_last();
        let last = positions.len() - 1;
        assert forall|i: int| 0 <= i < head.len() implies 0 <= #[trigger] head[i] < base.len() by {
            assert(head[i] == positions[i]);
        }
        assert forall|i: int, j: int| 0 <= i < j < head.len() implies head[i] < head[j] by {
            assert(head[i] == positions[i] && head[j] == positions[j]);
        }
        lemma_place_at(base, head, values.drop_last(), k);
        let inner = place(base, head, values.drop_last());
        assert(0 <= positions[last] < base.len());
        assert forall|i: int| 0 <= i < positions.len() && #[trigger] positions[i] == k implies place(
            base,
            positions,
            values,
        )[k] == values[i] by {
            if i < last {
                assert(positions[i] < positions[last]);
                assert(head[i] == k);
                assert(inner[k] == values.drop_last()[i]);
            }
        }
        if forall|i: int| 0 <= i < positions.len() ==> #[trigger] positions[i] != k {
            assert(positions[last] != k);
            assert forall|i: int| 0 <= i < head.len() implies #[trigger] head[i] != k by {
                assert(head[i] == positions[i]);
            }
        }
    }
}

/// The sample points made for a row are exactly the vectors that have, at
/// each position, an offset of the digit there.
pub proof fn lemma_row_samples_hold(row: Seq<nat>, v: Seq<int>)
    ensures
        row_samples(row).contains(v) <==> is_sample_of(row, v),
{
    let positions = nonzero_positions(row);
    let pools = pools_at(row, positions);
    let base = digits_as_ints(row);
    let combos = product(pools);
    lemma_nonzero_positions(row);
    if row_samples(row).contains(v) {
        let t = choose|t: int| 0 <= t < row_samples(row).len() && row_samples(row)[t] == v;
        let c = combos[t];
        assert(combos.contains(c));
        lemma_product_holds(pools, c);
        assert(v == place(base, positions, c));
        if row.len() > 0 {
            lemma_place_at(base, positions, c, 0);
        } else {
            assert(positions.len() == 0);
        }
        assert forall|k: int| 0 <= k < row.len() implies is_offset(row[k], #[trigger] v[k]) by {
            lemma_place_at(base, positions, c, k);
            if row[k] != 0 {
                let i = choose|i: int| 0 <= i < positions.len() && positions[i] == k;
                assert(pools[i].contains(c[i]));
                lemma_stencil_holds_offsets(row[k], c[i]);
            } else {
                assert forall|i: int| 0 <= i < positions.len() implies #[trigger] positions[i]
                    != k by {
                    assert(row[positions[i]] != 0);
                }
            }
        }
    }
    if is_sample_of(row, v) {
        let c = positions.map_values(|k: int| v[k]);
        assert forall|i: int| 0 <= i < pools.len() implies (#[trigger] pools[i]).contains(c[i]) by {
            let k = positions[i];
            assert(is_offset(row[k], v[k]));
            lemma_stencil_holds_offsets(row[k], v[k]);
        }
        lemma_product_holds(pools, c);
        let t = choose|t: int| 0 <= t < combos.len() && combos[t] == c;
        let made = place(base, positions, c);
        if row.len() > 0 {
            lemma_place_at(base, positions, c, 0);
        } else {
            assert(positions.len() == 0);
        }
        assert forall|k: int| 0 <= k < row.len() implies made[k] == v[k] by {
            lemma_place_at(base, positions, c, k);
            assert(is_offset(row[k], v[k]));
            if row[k] != 0 {
                let i = choose|i: int| 0 <= i < positions.len() && positions[i] == k;
                assert(c[i] == v[k]);
            } else {
                assert forall|i: int| 0 <= i < positions.len() implies #[trigger] positions[i]
                    != k by {
                    assert(row[positions[i]] != 0);
                }
            }
        }
        assert(made =~= v);
        assert(row_samples(row)[t] == v);
    }
}

/// The offsets for a derivative of order `d`, ascending.
pub fn offsets_of(d: isize) -> (pool: Vec<isize>)
    requires
        d >= 0,
    ensures
        as_ints(pool@) == stencil(d as nat),
{
    let mut pool: Vec<isize> = Vec::new();
    let mut j: isize = 0;
    while j <= d
        invariant
            0 <= j <= d + 1,
            d >= 0,
            as_ints(pool@) == Seq::new(j as nat, |t: int| 2 * t - d),
        decreases d + 1 - j,
    {
        let ghost sofar = as_ints(pool@);
        pool.push(j - (d - j));
        assert(as_ints(pool@) =~= sofar.push(2 * j - d));
        if j == d {
            assert(as_ints(pool@) =~= stencil(d as nat));
            return pool;
        }
        j = j + 1;
    }
    pool
}

/// The sample points of one row: every member of the Cartesian product of
/// the stencils of its nonzero digits, written over the row at the
/// positions of those digits. A row of zeros gives itself.
pub fn samples_of_row(row: &Vec<usize>) -> (samples: Vec<Vec<isize>>)
    requires
        digits_fit(as_digits(row@)),
    ensures
        rows_view(samples@) == row_samples(as_digits(row@)),
{
    let ghost digits = as_digits(row@);
    let mut indices: Vec<usize> = Vec::new();
    let mut prods: Vec<Vec<isize>> = Vec::new();
    let mut base: Vec<isize> = Vec::new();
    let mut k: usize = 0;
    proof {
        assert(digits.take(0) =~= Seq::<nat>::empty());
        assert(pools_at(digits, nonzero_positions(digits.take(0))) =~= Seq::<Seq<int>>::empty());
        assert(rows_view(prods@) =~= pools_at(digits, nonzero_positions(digits.take(0))));
        assert(as_ints(base@) =~= digits_as_ints(digits.take(0)));
        assert(indices@.map_values(|i: usize| i as int) =~= nonzero_positions(digits.take(0)));
    }
    while k < row.len()
        invariant
            k <= row.len(),
            digits == as_digits(row@),
            digits_fit(digits),
            indices@.map_values(|i: usize| i as int) == nonzero_positions(digits.take(k as int)),
            rows_view(prods@) == pools_at(digits, nonzero_positions(digits.take(k as int))),
            as_ints(base@) == digits_as_ints(digits.take(k as int)),
            base.len() == k,
        decreases row.len() - k,
    {
        let ghost seen = nonzero_positions(digits.take(k as int));
        let ghost pools = rows_view(prods@);
        let ghost ints = as_ints(base@);
        let ghost places = indices@.map_values(|i: usize| i as int);
        assert(digits[k as int] == row[k as int] as nat);
        assert(digits[k as int] <= isize::MAX);
        let digit = row[k] as isize;
        base.push(digit);
        proof {
            assert(digits.take(k + 1).drop_last() =~= digits.take(k as int));
            assert(digits.take(k + 1).last() == digits[k as int]);
            assert(as_ints(base@) =~= ints.push(digit as int));
            assert(digits_as_ints(digits.take(k + 1)) =~= ints.push(digit as int));
        }
        if digit != 0 {
            indices.push(k);
            let pool = offsets_of(digit);
            prods.push(pool);
            proof {
                assert(indices@.map_values(|i: usize| i as int) =~= places.push(k as int));
                assert(rows_view(prods@) =~= pools.push(stencil(digits[k as int])));
                assert(pools_at(digits, seen.push(k as int)) =~= pools.push(
                    stencil(digits[k as int]),
                ));
            }
        }
        k = k + 1;
    }
    assert(digits.take(k as int) =~= digits);
    let ghost positions = nonzero_positions(digits);
    let ghost ints = digits_as_ints(digits);
    let mut samples: Vec<Vec<isize>> = Vec::new();
    if prods.len() == 0 {
        samples.push(base);
        proof {
            assert(pools_at(digits, positions) =~= Seq::<Seq<int>>::empty());
            assert(positions.len() == 0);
            assert(rows_view(samples@) =~= seq![ints]);
            assert(row_samples(digits) =~= seq![ints]);
        }
        return samples;
    }
    let combos = Taylor::cart_prod(prods);
    let ghost picks = rows_view(combos@);
    let mut t: usize = 0;
    proof {
        lemma_nonzero_positions(digits);
        assert(rows_view(samples@) =~= picks.take(0).map_values(
            |c: Seq<int>| place(ints, positions, c),
        ));
    }
    while t < combos.len()
        invariant
            t <= combos.len(),
            picks == rows_view(combos@),
            picks == product(pools_at(digits, positions)),
            positions == nonzero_positions(digits),
            positions == indices@.map_values(|i: usize| i as int),
            ints == as_ints(base@),
            ints == digits_as_ints(digits),
            digits.len() == row.len(),
            base.len() == row.len(),
            forall|i: int|
                0 <= i < positions.len() ==> 0 <= (#[trigger] positions[i]) < digits.len(),
            rows_view(samples@) == picks.take(t as int).map_values(
                |c: Seq<int>| place(ints, positions, c),
            ),
        decreases combos.len() - t,
    {
        let ghost made = rows_view(samples@);
        let ghost pick = picks[t as int];
        let nrow = &combos[t];
        proof {
            assert(picks.contains(pick));
            lemma_product_holds(pools_at(digits, positions), pick);
            assert(pick == as_ints(nrow@));
        }
        let mut r = base.clone();
        assert(r@ =~= base@);
        let mut i: usize = 0;
        assert(positions.take(0) =~= Seq::<int>::empty());
        while i < indices.len()
            invariant
                i <= indices.len(),
                indices.len() == nrow.len(),
                r.len() == base.len(),
                base.len() == digits.len(),
                positions == indices@.map_values(|i: usize| i as int),
                pick == as_ints(nrow@),
                ints == as_ints(base@),
                forall|i: int|
                    0 <= i < positions.len() ==> 0 <= (#[trigger] positions[i]) < digits.len(),
                as_ints(r@) == place(ints, positions.take(i as int), pick.take(i as int)),
            decreases indices.len() - i,
        {
            let ghost sofar = as_ints(r@);
            assert(positions[i as int] == indices[i as int] as int);
            r.set(indices[i], nrow[i]);
            proof {
                assert(positions.take(i + 1).drop_last() =~= positions.take(i as int));
                assert(pick.take(i + 1).drop_last() =~= pick.take(i as int));
                assert(as_ints(r@) =~= sofar.update(positions[i as int], pick[i as int]));
            }
            i = i + 1;
        }
        proof {
            assert(positions.take(i as int) =~= positions);
            assert(pick.take(i as int) =~= pick);
        }
        samples.push(r);
        proof {
            assert(rows_view(samples@) =~= made.push(place(ints, positions, pick)));
            assert(picks.take(t + 1).map_values(|c: Seq<int>| place(ints, positions, c))
                =~= made.push(place(ints, positions, pick)));
        }
        t = t + 1;
    }
    assert(picks.take(t as int) =~= picks);
    samples
}

} // verus!
