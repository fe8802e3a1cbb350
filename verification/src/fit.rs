//! The integer parts of the input of a least-squares fit: the exponent
//! matrix of the terms, the displacements laid out row by row, and the
//! count of energies that the displacements ask for.
use crate::displacements::Disps;
use crate::error::TaylorError;
use crate::expansion::Taylor;
use crate::order::as_ints;
use crate::stencil::digits_as_ints;
use nalgebra::DMatrix;
use vstd::prelude::*;

verus! {

/// The exponent matrix of an expansion: a `nalgebra::DMatrix<i32>` with one
/// row for each coordinate and one column for each term. The verifier does
/// not look inside it: what the matrix holds goes by the names
/// `exponent_columns` and `exponent_rows`, and all that is known of them is
/// what the four functions below state of `nalgebra`, unproved.
#[verifier::external_body]
pub struct Exponents {
    matrix: DMatrix<i32>,
}

/// The columns of the matrix, first to last, each from its first row to its
/// last.
pub uninterp spec fn exponent_columns(e: Exponents) -> Seq<Seq<int>>;

/// The number of rows that the matrix was made with.
pub uninterp spec fn exponent_rows(e: Exponents) -> nat;

/// `nalgebra::DMatrix::from_column_slice`: a matrix of `nrows` rows and
/// `ncols` columns that is filled column by column from `data`, so that
/// column `c` holds the `nrows` entries of `data` from `c * nrows` on. The
/// call panics unless `data` holds `nrows * ncols` entries.
#[verifier::external_body]
fn from_column_slice(nrows: usize, ncols: usize, data: &Vec<i32>) -> (e: Exponents)
    requires
        data.len() == nrows * ncols,
    ensures
        exponent_rows(e) == nrows,
        exponent_columns(e) == Seq::new(
            ncols as nat,
            |c: int| Seq::new(nrows as nat, |r: int| data[c * nrows + r] as int),
        ),
{
    Exponents { matrix: DMatrix::from_column_slice(nrows, ncols, data) }
}

/// `nalgebra::Matrix::nrows`: the number of rows, which is the length of
/// every column.
#[verifier::external_body]
fn row_count(e: &Exponents) -> (rows: usize)
    ensures
        rows == exponent_rows(*e),
        forall|c: int|
            0 <= c < exponent_columns(*e).len() ==> (#[trigger] exponent_columns(*e)[c]).len()
                == rows,
{
    e.matrix.nrows()
}

/// `nalgebra::Matrix::ncols`: the number of columns.
#[verifier::external_body]
fn column_count(e: &Exponents) -> (columns: usize)
    ensures
        columns == exponent_columns(*e).len(),
{
    e.matrix.ncols()
}

/// Indexing a `nalgebra::Matrix` by `(row, column)`: the entry there. The
/// call panics where the matrix has no such entry.
#[verifier::external_body]
fn entry_at(e: &Exponents, row: usize, column: usize) -> (entry: i32)
    requires
        column < exponent_columns(*e).len(),
        row < exponent_columns(*e)[column as int].len(),
    ensures
        entry == exponent_columns(*e)[column as int][row as int],
{
    e.matrix[(row, column)]
}

/// All rows are as long as the first.
pub open spec fn rectangular(forces: Seq<Seq<nat>>) -> bool {
    forall|i: int| 0 <= i < forces.len() ==> (#[trigger] forces[i]).len() == forces[0].len()
}

/// Every digit can be held by an `i32`.
pub open spec fn digits_fit_i32(forces: Seq<Seq<nat>>) -> bool {
    forall|i: int, k: int|
        0 <= i < forces.len() && 0 <= k < forces[i].len() ==> #[trigger] forces[i][k] <= i32::MAX
}

impl Exponents {
    /// The numbers of rows and of columns.
    pub fn shape(&self) -> (shape: (usize, usize))
        ensures
            shape.0 == exponent_rows(*self),
            shape.1 == exponent_columns(*self).len(),
            forall|c: int|
                0 <= c < shape.1 ==> (#[trigger] exponent_columns(*self)[c]).len() == shape.0,
    {
        (row_count(self), column_count(self))
    }

    /// The entry at `row` and `column`, or `None` where the matrix has no
    /// such entry.
    pub fn get(&self, row: usize, column: usize) -> (entry: Option<i32>)
        ensures
            entry is Some <==> column < exponent_columns(*self).len() && row < exponent_rows(*self),
            entry is Some ==> entry->0 == exponent_columns(*self)[column as int][row as int],
    {
        let rows = row_count(self);
        let columns = column_count(self);
        if row < rows && column < columns {
            assert(exponent_columns(*self)[column as int].len() == rows);
            Some(entry_at(self, row, column))
        } else {
            None
        }
    }
}

impl Taylor {
    /// The exponent matrix: the rows of the Taylor set as its columns, so
    /// that the entry at row `r` and column `c` is the digit of term `c` at
    /// coordinate `r`. There is none for an empty Taylor set, for rows of
    /// different lengths, and for digits that an `i32` cannot hold.
    pub fn exponents(&self) -> (built: Result<Exponents, TaylorError>)
        ensures
            built is Ok <==> self@.len() > 0 && rectangular(self@) && digits_fit_i32(self@),
            built == Err::<Exponents, TaylorError>(TaylorError::NoTerms) <==> self@.len() == 0,
            built == Err::<Exponents, TaylorError>(TaylorError::RaggedRows) <==> self@.len() > 0
                && !rectangular(self@),
            built == Err::<Exponents, TaylorError>(TaylorError::DigitTooLarge) <==> self@.len() > 0
                && rectangular(self@) && !digits_fit_i32(self@),
            built is Ok ==> exponent_columns(built->Ok_0) == self@.map_values(
                |row: Seq<nat>| digits_as_ints(row),
            ) && exponent_rows(built->Ok_0) == self@[0].len(),
    {
        let ghost forces = self@;
        let fl = self.forces.len();
        if fl == 0 {
            return Err(TaylorError::NoTerms);
        }
        let n = self.forces[0].len();
        assert(forces[0].len() == n);
        let mut c: usize = 0;
        while c < fl
            invariant
                c <= fl,
                fl == self.forces.len(),
                forces == self@,
                n == forces[0].len(),
                forall|i: int| 0 <= i < c ==> (#[trigger] forces[i]).len() == n,
            decreases fl - c,
        {
            assert(forces[c as int].len() == self.forces[c as int].len());
            if self.forces[c].len() != n {
                return Err(TaylorError::RaggedRows);
            }
            c = c + 1;
        }
        let mut fs: Vec<i32> = Vec::new();
        let mut c: usize = 0;
        assert(0 * n == 0) by (nonlinear_arith);
        while c < fl
            invariant
                c <= fl,
                fl == self.forces.len(),
                fl > 0,
                forces == self@,
                n == forces[0].len(),
                rectangular(forces),
                fs.len() == c * n,
                forall|i: int, k: int|
                    0 <= i < c && 0 <= k < n ==> #[trigger] forces[i][k] <= i32::MAX,
                forall|i: int, k: int|
                    0 <= i < c && 0 <= k < n ==> fs[i * n + k] as int == #[trigger] forces[i][k],
            decreases fl - c,
        {
            let row = &self.forces[c];
            assert(forces[c as int] == crate::digits::as_digits(row@));
            assert(forces[c as int].len() == n);
            let mut r: usize = 0;
            while r < n
                invariant
                    r <= n,
                    c < fl,
                    fl == forces.len(),
                    forces == self@,
                    rectangular(forces),
                    n == row.len(),
                    forces[c as int] == crate::digits::as_digits(row@),
                    fs.len() == c * n + r,
                    forall|k: int| 0 <= k < r ==> #[trigger] forces[c as int][k] <= i32::MAX,
                    forall|k: int|
                        0 <= k < r ==> fs[c * n + k] as int == #[trigger] forces[c as int][k],
                    forall|i: int, k: int|
                        0 <= i < c && 0 <= k < n ==> #[trigger] forces[i][k] <= i32::MAX,
                    forall|i: int, k: int|
                        0 <= i < c && 0 <= k < n ==> fs[i * n + k] as int
                            == #[trigger] forces[i][k],
                decreases n - r,
            {
                if row[r] > i32::MAX as usize {
                    assert(forces[c as int][r as int] > i32::MAX);
                    return Err(TaylorError::DigitTooLarge);
                }
                let ghost before = fs@;
                fs.push(row[r] as i32);
                proof {
                    assert forall|i: int, k: int| 0 <= i < c && 0 <= k < n implies fs[i * n + k] as int
                        == #[trigger] forces[i][k] by {
                        assert(0 <= i * n + k < c * n) by (nonlinear_arith)
                            requires
                                0 <= i < c,
                                0 <= k < n,
                        ;
                        assert(fs[i * n + k] == before[i * n + k]);
                    }
                }
                r = r + 1;
            }
            assert((c + 1) * n == c * n + n) by (nonlinear_arith);
            c = c + 1;
        }
        assert(fs.len() == n * fl) by (nonlinear_arith)
            requires
                fs.len() == fl * n,
        ;
        let built = from_column_slice(n, fl, &fs);
        proof {
            let wanted = forces.map_values(|row: Seq<nat>| digits_as_ints(row));
            assert forall|i: int| 0 <= i < fl implies exponent_columns(built)[i] == wanted[i] by {
                assert(forces[i].len() == n);
                assert forall|k: int| 0 <= k < n implies exponent_columns(built)[i][k]
                    == wanted[i][k] by {
                    assert(fs[i * n + k] as int == forces[i][k]);
                }
                assert(exponent_columns(built)[i] =~= wanted[i]);
            }
            assert(exponent_columns(built) =~= wanted);
            assert(digits_fit_i32(forces)) by {
                assert forall|i: int, k: int|
                    0 <= i < forces.len() && 0 <= k < forces[i].len() implies #[trigger] forces[i][k]
                    <= i32::MAX by {
                    assert(forces[i].len() == n);
                }
            }
        }
        Ok(built)
    }
}

impl Disps {
    /// The entries of all vectors in one list, vector after vector: the
    /// displacement matrix in row-major order, one row for each sample
    /// point.
    pub fn flatten(&self) -> (flat: Vec<isize>)
        ensures
            as_ints(flat@) == self@.flatten(),
    {
        let ghost rows = self@;
        let mut flat: Vec<isize> = Vec::new();
        let mut i: usize = 0;
        proof {
            assert(rows.take(0) =~= Seq::<Seq<int>>::empty());
            assert(as_ints(flat@) =~= rows.take(0).flatten());
        }
        while i < self.0.len()
            invariant
                i <= self.0.len(),
                rows == self@,
                as_ints(flat@) == rows.take(i as int).flatten(),
            decreases self.0.len() - i,
        {
            let row = &self.0[i];
            let ghost done = as_ints(flat@);
            let ghost entries = as_ints(row@);
            let mut k: usize = 0;
            assert(done + entries.take(0) =~= done);
            while k < row.len()
                invariant
                    k <= row.len(),
                    entries == as_ints(row@),
                    as_ints(flat@) == done + entries.take(k as int),
                decreases row.len() - k,
            {
                let ghost sofar = as_ints(flat@);
                flat.push(row[k]);
                assert(entries[k as int] == row[k as int] as int);
                assert(as_ints(flat@) =~= sofar.push(entries[k as int]));
                assert(sofar.push(entries[k as int]) =~= done + entries.take(k + 1));
                k = k + 1;
            }
            proof {
                assert(entries.take(k as int) =~= entries);
                assert(rows[i as int] == entries);
                assert(rows.take(i + 1) =~= rows.take(i as int).push(entries));
                rows.take(i as int).lemma_flatten_push(entries);
            }
            i = i + 1;
        }
        assert(rows.take(i as int) =~= rows);
        flat
    }

    /// Holds the number of energies against the number of displacements:
    /// a fit needs one energy for each sample point.
    pub fn check_energies(&self, energies: usize) -> (checked: Result<(), TaylorError>)
        ensures
            checked is Ok <==> energies == self@.len(),
            checked is Err ==> checked == Err::<(), TaylorError>(TaylorError::EnergyCountMismatch),
    {
        if energies == self.0.len() {
            Ok(())
        } else {
            Err(TaylorError::EnergyCountMismatch)
        }
    }
}

} // verus!
