//! The displacement set of an expansion: the sample points of all its rows,
//! each once, in lexicographic order.
use crate::expansion::Taylor;
use crate::order::dedup_rows;
use crate::order::lemma_strictly_sorted_unique;
use crate::order::rows_view;
use crate::order::sort_rows;
use crate::order::sorted;
use crate::order::strictly_sorted;
use crate::stencil::digits_as_ints;
use crate::stencil::digits_fit;
use crate::stencil::extend;
use crate::stencil::is_sample_of;
use crate::stencil::lemma_row_samples_hold;
use crate::stencil::nonzero_positions;
use crate::stencil::place;
use crate::stencil::pools_at;
use crate::stencil::product;
use crate::stencil::row_samples;
use crate::stencil::samples_of_row;
use crate::stencil::stencil;
use vstd::prelude::*;

verus! {

/// Displacement vectors: each a sample point, as multiples of a step size
/// along each coordinate.
#[derive(Clone, Debug, PartialEq)]
pub struct Disps(pub Vec<Vec<isize>>);

impl View for Disps {
    type V = Seq<Seq<int>>;

    /// The vectors as sequences of integers.
    open spec fn view(&self) -> Seq<Seq<int>> {
        rows_view(self.0@)
    }
}

/// The sample points of all rows of `forces`, row after row, with
/// repetitions.
pub open spec fn all_samples(forces: Seq<Seq<nat>>) -> Seq<Seq<int>>
    decreases forces.len(),
{
    if forces.len() == 0 {
        Seq::empty()
    } else {
        all_samples(forces.drop_last()) + row_samples(forces.last())
    }
}

/// `v` is a sample point of some row of `forces`.
pub open spec fn is_sample(forces: Seq<Seq<nat>>, v: Seq<int>) -> bool {
    exists|i: int| 0 <= i < forces.len() && is_sample_of(#[trigger] forces[i], v)
}

/// `disps` is the displacement set of `forces`: it holds exactly the sample
/// points of the rows, each once, in strictly ascending lexicographic order.
pub open spec fn are_disps_of(forces: Seq<Seq<nat>>, disps: Seq<Seq<int>>) -> bool {
    &&& strictly_sorted(disps)
    &&& forall|v: Seq<int>| disps.contains(v) <==> is_sample(forces, v)
}

/// What `all_samples` holds: the sample points of the rows.
pub proof fn lemma_all_samples_hold(forces: Seq<Seq<nat>>, v: Seq<int>)
    ensures
        all_samples(forces).contains(v) <==> is_sample(forces, v),
    decreases forces.len(),
{
    if forces.len() > 0 {
        let head = forces.drop_last();
        let front = all_samples(head);
        let back = row_samples(forces.last());
        lemma_all_samples_hold(head, v);
        lemma_row_samples_hold(forces.last(), v);
        if all_samples(forces).contains(v) {
            let t = choose|t: int| 0 <= t < (front + back).len() && (front + back)[t] == v;
            if t < front.len() {
                assert(front[t] == v);
                assert(front.contains(v));
                let i = choose|i: int| 0 <= i < head.len() && is_sample_of(#[trigger] head[i], v);
                assert(is_sample_of(forces[i], v));
            } else {
                assert(back[t - front.len()] == v);
                assert(back.contains(v));
                assert(is_sample_of(forces[forces.len() - 1], v));
            }
        }
        if is_sample(forces, v) {
            let i = choose|i: int| 0 <= i < forces.len() && is_sample_of(#[trigger] forces[i], v);
            if i < forces.len() - 1 {
                assert(is_sample_of(head[i], v));
                assert(front.contains(v));
                let t = choose|t: int| 0 <= t < front.len() && front[t] == v;
                assert((front + back)[t] == v);
            } else {
                assert(back.contains(v));
                let t = choose|t: int| 0 <= t < back.len() && back[t] == v;
                assert((front + back)[front.len() + t] == v);
            }
        }
    }
}

/// The displacement set does not depend on the order of the rows, and there
/// is only one: two displacement sets of Taylor sets that hold the same
/// rows, in whatever order, are equal, entry by entry. So is what two runs
/// on one Taylor set give.
pub proof fn lemma_disps_are_unique(
    forces: Seq<Seq<nat>>,
    permuted: Seq<Seq<nat>>,
    first: Seq<Seq<int>>,
    second: Seq<Seq<int>>,
)
    requires
        forces.to_multiset() == permuted.to_multiset(),
        are_disps_of(forces, first),
        are_disps_of(permuted, second),
    ensures
        first == second,
{
    broadcast use vstd::seq_lib::group_to_multiset_ensures;

    assert forall|v: Seq<int>| is_sample(forces, v) <==> is_sample(permuted, v) by {
        if is_sample(forces, v) {
            let i = choose|i: int| 0 <= i < forces.len() && is_sample_of(#[trigger] forces[i], v);
            assert(forces.contains(forces[i]));
            assert(permuted.to_multiset().count(forces[i]) > 0);
            assert(permuted.contains(forces[i]));
            let j = choose|j: int| 0 <= j < permuted.len() && permuted[j] == forces[i];
            assert(is_sample_of(permuted[j], v));
        }
        if is_sample(permuted, v) {
            let i = choose|i: int|
                0 <= i < permuted.len() && is_sample_of(#[trigger] permuted[i], v);
            assert(permuted.contains(permuted[i]));
            assert(forces.to_multiset().count(permuted[i]) > 0);
            assert(forces.contains(permuted[i]));
            let j = choose|j: int| 0 <= j < forces.len() && forces[j] == permuted[i];
            assert(is_sample_of(forces[j], v));
        }
    }
    lemma_strictly_sorted_unique(first, second);
}

/// A row of zeros has no nonzero position.
proof fn lemma_no_positions_in_zero_row(row: Seq<nat>)
    requires
        forall|k: int| 0 <= k < row.len() ==> row[k] == 0,
    ensures
        nonzero_positions(row) == Seq::<int>::empty(),
    decreases row.len(),
{
    if row.len() > 0 {
        lemma_no_positions_in_zero_row(row.drop_last());
    }
}

/// A row with one nonzero digit has one nonzero position.
proof fn lemma_one_position(row: Seq<nat>, p: int)
    requires
        0 <= p < row.len(),
        row[p] != 0,
        forall|k: int| 0 <= k < row.len() && k != p ==> row[k] == 0,
    ensures
        nonzero_positions(row) == seq![p],
    decreases row.len(),
{
    let head = row.drop_last();
    if p == row.len() - 1 {
        lemma_no_positions_in_zero_row(head);
        assert(nonzero_positions(row) =~= seq![p]);
    } else {
        lemma_one_position(head, p);
    }
}

/// A row of zeros asks for one sample point, the zero vector.
pub proof fn lemma_zero_row_samples(row: Seq<nat>)
    requires
        forall|k: int| 0 <= k < row.len() ==> row[k] == 0,
    ensures
        row_samples(row) == seq![Seq::new(row.len(), |k: int| 0int)],
{
    lemma_no_positions_in_zero_row(row);
    let positions = nonzero_positions(row);
    assert(pools_at(row, positions) =~= Seq::<Seq<int>>::empty());
    assert(product(pools_at(row, positions)) == seq![Seq::<int>::empty()]);
    assert(digits_as_ints(row) =~= Seq::new(row.len(), |k: int| 0int));
    assert(row_samples(row) =~= seq![Seq::new(row.len(), |k: int| 0int)]);
}

/// A row whose one nonzero digit `d` stands at `p` asks for `d + 1` sample
/// points: the offsets `-d`, `-d + 2`, up to `d` at `p`, in this order, and
/// zero elsewhere.
pub proof fn lemma_single_digit_samples(row: Seq<nat>, p: int)
    requires
        0 <= p < row.len(),
        row[p] != 0,
        forall|k: int| 0 <= k < row.len() && k != p ==> row[k] == 0,
    ensures
        row_samples(row) == Seq::new(
            row[p] + 1,
            |j: int|
                Seq::new(
                    row.len(),
                    |k: int|
                        if k == p {
                            2 * j - row[p]
                        } else {
                            0
                        },
                ),
        ),
{
    let d = row[p];
    lemma_one_position(row, p);
    let positions = nonzero_positions(row);
    let pools = pools_at(row, positions);
    let base = digits_as_ints(row);
    assert(pools =~= seq![stencil(d)]);
    assert(pools.drop_last() =~= Seq::<Seq<int>>::empty());
    let start = product(pools.drop_last());
    assert(start == seq![Seq::<int>::empty()]);
    assert(start.drop_last() =~= Seq::<Seq<int>>::empty());
    assert(extend(start.drop_last(), stencil(d)) =~= Seq::<Seq<int>>::empty());
    let combos = product(pools);
    assert(combos =~= Seq::new(d + 1, |j: int| seq![2 * j - d])) by {
        assert(combos == extend(start, stencil(d)));
        assert forall|j: int| 0 <= j <= d implies combos[j] == seq![2 * j - d] by {
            assert(start.last().push(stencil(d)[j]) =~= seq![2 * j - d]);
        }
    }
    let wanted = Seq::new(
        d + 1,
        |j: int|
            Seq::new(
                row.len(),
                |k: int|
                    if k == p {
                        2 * j - d
                    } else {
                        0
                    },
            ),
    );
    assert forall|j: int| 0 <= j <= d implies row_samples(row)[j] == wanted[j] by {
        let c = combos[j];
        assert(positions.drop_last() =~= Seq::<int>::empty());
        assert(place(base, positions, c) == place(
            base,
            positions.drop_last(),
            c.drop_last(),
        ).update(p, 2 * j - d));
        assert(place(base, positions, c) =~= wanted[j]);
    }
    assert(row_samples(row) =~= wanted);
}

impl Disps {
    /// The number of displacement vectors.
    pub fn len(&self) -> (len: usize)
        ensures
            len == self@.len(),
    {
        self.0.len()
    }

    /// Tells whether there is no displacement vector.
    #[must_use]
    pub fn is_empty(&self) -> (empty: bool)
        ensures
            empty == (self@.len() == 0),
    {
        self.len() == 0
    }

    /// Sorts the vectors into lexicographic order, keeping each as often as
    /// it occurs.
    pub fn sort(&mut self)
        ensures
            sorted(final(self)@),
            final(self)@.to_multiset() == old(self)@.to_multiset(),
    {
        sort_rows(&mut self.0);
    }
}

impl Taylor {
    /// The digits of every row can be held, with either sign, by an `isize`.
    pub open spec fn digits_fit(&self) -> bool {
        forall|i: int| 0 <= i < self@.len() ==> digits_fit(#[trigger] self@[i])
    }

    /// The displacements of the expansion: the sample points of all its
    /// rows, sorted, each once.
    pub fn disps(&self) -> (disps: Disps)
        requires
            self.digits_fit(),
        ensures
            are_disps_of(self@, disps@),
    {
        let ghost forces = self@;
        let mut all: Vec<Vec<isize>> = Vec::new();
        let mut i: usize = 0;
        proof {
            assert(forces.take(0) =~= Seq::<Seq<nat>>::empty());
            assert(rows_view(all@) =~= all_samples(forces.take(0)));
        }
        while i < self.forces.len()
            invariant
                i <= self.forces.len(),
                forces == self@,
                self.digits_fit(),
                rows_view(all@) == all_samples(forces.take(i as int)),
            decreases self.forces.len() - i,
        {
            let ghost sofar = rows_view(all@);
            assert(digits_fit(self@[i as int]));
            let mut new_rows = samples_of_row(&self.forces[i]);
            let ghost fresh = rows_view(new_rows@);
            all.append(&mut new_rows);
            proof {
                assert(rows_view(all@) =~= sofar + fresh);
                assert(forces.take(i + 1).drop_last() =~= forces.take(i as int));
                assert(forces.take(i + 1).last() == forces[i as int]);
            }
            i = i + 1;
        }
        let ghost gathered = rows_view(all@);
        assert(forces.take(i as int) =~= forces);
        sort_rows(&mut all);
        let ghost ordered = rows_view(all@);
        dedup_rows(&mut all);
        proof {
            broadcast use vstd::seq_lib::group_to_multiset_ensures;

            assert forall|v: Seq<int>| rows_view(all@).contains(v) <==> is_sample(forces, v) by {
                lemma_all_samples_hold(forces, v);
                assert(ordered.contains(v) <==> ordered.to_multiset().count(v) > 0);
                assert(gathered.contains(v) <==> gathered.to_multiset().count(v) > 0);
            }
        }
        Disps(all)
    }
}

} // verus!
