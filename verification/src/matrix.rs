use vstd::prelude::*;
use crate::scalar::{SModel, Scalar, sc_add_spec, sc_mul_spec, sc_wf, sc_zero};
use crate::Error;

verus! {

/// Mathematical content of a `Matrix`: a grid of exact scalars, row major.
pub type MatModel = Seq<Seq<SModel>>;

pub open spec fn mat_rows(m: MatModel) -> nat {
    m.len()
}

pub open spec fn mat_cols(m: MatModel) -> nat {
    if m.len() == 0 {
        0
    } else {
        m[0].len()
    }
}

/// Nonempty and rectangular.
pub open spec fn mat_shaped(m: MatModel) -> bool {
    &&& m.len() > 0
    &&& m[0].len() > 0
    &&& forall|i: int| 0 <= i < m.len() ==> (#[trigger] m[i]).len() == m[0].len()
}

pub open spec fn mat_entries_wf(m: MatModel) -> bool {
    forall|i: int, j: int|
        0 <= i < m.len() && 0 <= j < m[i].len() ==> sc_wf(#[trigger] m[i][j])
}

pub open spec fn mat_wf(m: MatModel) -> bool {
    mat_shaped(m) && mat_entries_wf(m)
}

pub open spec fn mat_square(m: MatModel) -> bool {
    mat_rows(m) == mat_cols(m)
}

/// Exact dot product of row `r` of `a` with column `c` of `b`, over the
/// first `t` terms; `None` as soon as a partial result is unrepresentable.
pub open spec fn dot_prefix(a: MatModel, b: MatModel, r: int, c: int, t: int) -> Option<SModel>
    decreases t,
{
    if t <= 0 {
        Some(sc_zero())
    } else {
        match dot_prefix(a, b, r, c, t - 1) {
            Some(s) => match sc_mul_spec(a[r][t - 1], b[t - 1][c]) {
                Some(p) => sc_add_spec(s, p),
                None => None,
            },
            None => None,
        }
    }
}

pub open spec fn dot(a: MatModel, b: MatModel, r: int, c: int) -> Option<SModel> {
    dot_prefix(a, b, r, c, mat_cols(a) as int)
}

/// The product grid itself (meaningful when `mul_defined(a, b)` holds).
pub open spec fn mat_mul_val(a: MatModel, b: MatModel) -> MatModel {
    Seq::new(mat_rows(a), |i: int| Seq::new(mat_cols(b), |j: int| dot(a, b, i, j)->Some_0))
}

/// Every entry of the product of `a` and `b` is representable.
pub open spec fn mul_defined(a: MatModel, b: MatModel) -> bool {
    forall|r: int, c: int|
        0 <= r < mat_rows(a) && 0 <= c < mat_cols(b) ==> (#[trigger] dot(a, b, r, c)) is Some
}

/// Once a dot-product prefix is unrepresentable, so are all longer prefixes.
pub proof fn lemma_dot_prefix_none(a: MatModel, b: MatModel, r: int, c: int, t1: int, t2: int)
    requires
        dot_prefix(a, b, r, c, t1) is None,
        t1 <= t2,
    ensures
        dot_prefix(a, b, r, c, t2) is None,
    decreases t2 - t1,
{
    if t1 < t2 {
        lemma_dot_prefix_none(a, b, r, c, t1, t2 - 1);
    }
}

pub open spec fn row_model(row: Vec<Scalar>) -> Seq<SModel> {
    row@.map_values(|s: Scalar| s@)
}

pub open spec fn rows_model(data: Seq<Vec<Scalar>>) -> MatModel {
    data.map_values(|row: Vec<Scalar>| row_model(row))
}

pub proof fn lemma_rows_model_push(data: Seq<Vec<Scalar>>, row: Vec<Scalar>)
    ensures
        rows_model(data.push(row)) == rows_model(data).push(row_model(row)),
{
    assert(rows_model(data.push(row)) =~= rows_model(data).push(row_model(row)));
}

/// The model of a `Result` of matrix-producing operations.
pub open spec fn res_model(r: Result<Matrix, Error>) -> Result<MatModel, Error> {
    match r {
        Ok(m) => Ok(m@),
        Err(e) => Err(e),
    }
}

/// A rectangular grid of exact complex scalars; immutable once built.
#[derive(Debug)]
pub struct Matrix {
    data: Vec<Vec<Scalar>>,
}

impl PartialEq for Matrix {
    /// Entrywise equality of the two grids.
    fn eq(&self, other: &Matrix) -> (r: bool)
        ensures
            r == (self@ == other@),
    {
        proof {
            use_type_invariant(self);
            use_type_invariant(other);
        }
        let rows = self.rows();
        let cols = self.columns();
        if rows != other.rows() || cols != other.columns() {
            proof {
                assert(self@ != other@);
            }
            return false;
        }
        let mut i: usize = 0;
        while i < rows
            invariant
                0 <= i <= rows,
                mat_wf(self@),
                mat_wf(other@),
                rows == mat_rows(self@),
                cols == mat_cols(self@),
                rows == mat_rows(other@),
                cols == mat_cols(other@),
                forall|i2: int, j2: int|
                    0 <= i2 < i && 0 <= j2 < cols ==> #[trigger] self@[i2][j2] == other@[i2][j2],
            decreases rows - i,
        {
            let mut j: usize = 0;
            while j < cols
                invariant
                    0 <= j <= cols,
                    i < rows,
                    mat_wf(self@),
                    mat_wf(other@),
                    rows == mat_rows(self@),
                    cols == mat_cols(self@),
                    rows == mat_rows(other@),
                    cols == mat_cols(other@),
                    forall|j2: int| 0 <= j2 < j ==> #[trigger] self@[i as int][j2] == other@[i as int][j2],
                decreases cols - j,
            {
                let a = self.value_at(i, j);
                let b = other.value_at(i, j);
                proof {
                    crate::scalar::lemma_scalar_eq_view(a, b);
                }
                if !(a == b) {
                    proof {
                        assert(self@[i as int][j as int] != other@[i as int][j as int]);
                    }
                    return false;
                }
                j += 1;
            }
            i += 1;
        }
        proof {
            assert(self@ =~~= other@);
        }
        true
    }
}

impl vstd::std_specs::cmp::PartialEqSpecImpl for Matrix {
    open spec fn obeys_eq_spec() -> bool {
        true
    }

    open spec fn eq_spec(&self, other: &Matrix) -> bool {
        self@ == other@
    }
}

impl View for Matrix {
    type V = MatModel;

    closed spec fn view(&self) -> MatModel {
        rows_model(self.data@)
    }
}

impl Matrix {
    /// Holds of every `Matrix` by construction.
    #[verifier::type_invariant]
    pub open spec fn type_wf(self) -> bool {
        mat_wf(self@)
    }

    /// Build a matrix from rows already known to form a well-formed grid.
    pub fn new_exact(data: Vec<Vec<Scalar>>) -> (r: Matrix)
        requires
            mat_wf(rows_model(data@)),
        ensures
            r@ == rows_model(data@),
    {
        Matrix { data }
    }

    /// Build a matrix from rows; rejects an empty or ragged grid.
    pub fn new(data: Vec<Vec<Scalar>>) -> (r: Result<Matrix, Error>)
        ensures
            (mat_shaped(rows_model(data@)) ==> (r is Ok && r->Ok_0@ == rows_model(data@))),
            (!mat_shaped(rows_model(data@)) ==> r == Err::<Matrix, Error>(Error::DimensionError)),
    {
        if data.len() == 0 {
            return Err(Error::DimensionError);
        }
        let cols = data[0].len();
        if cols == 0 {
            return Err(Error::DimensionError);
        }
        let mut i: usize = 0;
        while i < data.len()
            invariant
                0 <= i <= data@.len(),
                cols == rows_model(data@)[0].len(),
                cols > 0,
                forall|i2: int| 0 <= i2 < i ==> (#[trigger] rows_model(data@)[i2]).len() == cols,
                forall|i2: int, j2: int|
                    0 <= i2 < i && 0 <= j2 < rows_model(data@)[i2].len()
                        ==> sc_wf(#[trigger] rows_model(data@)[i2][j2]),
            decreases data@.len() - i,
        {
            let row = &data[i];
            if row.len() != cols {
                proof {
                    assert(rows_model(data@)[i as int].len() != cols);
                }
                return Err(Error::DimensionError);
            }
            let mut j: usize = 0;
            while j < row.len()
                invariant
                    0 <= j <= row@.len(),
                    row@ == data@[i as int]@,
                    i < data@.len(),
                    forall|j2: int| 0 <= j2 < j ==> sc_wf(#[trigger] rows_model(data@)[i as int][j2]),
                decreases row@.len() - j,
            {
                let s = row[j];
                proof {
                    use_type_invariant(&s);
                }
                j += 1;
            }
            i += 1;
        }
        Ok(Matrix { data })
    }

    pub fn rows(&self) -> (r: usize)
        ensures
            r == mat_rows(self@),
    {
        proof {
            use_type_invariant(self);
            assert(self@.len() == self.data@.len());
        }
        self.data.len()
    }

    pub fn columns(&self) -> (r: usize)
        ensures
            r == mat_cols(self@),
    {
        proof {
            use_type_invariant(self);
            assert(self@[0] == row_model(self.data@[0]));
        }
        let rw = &self.data[0];
        rw.len()
    }

    pub fn value_at(&self, row: usize, col: usize) -> (r: Scalar)
        requires
            row < mat_rows(self@),
            col < mat_cols(self@),
        ensures
            r@ == self@[row as int][col as int],
    {
        proof {
            use_type_invariant(self);
            assert(self@[row as int] == row_model(self.data@[row as int]));
        }
        let rw = &self.data[row];
        rw[col]
    }

    /// Rows become columns: the entry at (i, j) moves to (j, i).
    pub fn transpose(&self) -> (r: Matrix)
        ensures
            mat_rows(r@) == mat_cols(self@),
            mat_cols(r@) == mat_rows(self@),
            forall|i: int, j: int|
                0 <= i < mat_cols(self@) && 0 <= j < mat_rows(self@)
                    ==> #[trigger] r@[i][j] == self@[j][i],
    {
        proof {
            use_type_invariant(self);
        }
        let rows = self.rows();
        let cols = self.columns();
        let mut data: Vec<Vec<Scalar>> = Vec::new();
        let mut i: usize = 0;
        while i < cols
            invariant
                0 <= i <= cols,
                mat_wf(self@),
                rows == mat_rows(self@),
                cols == mat_cols(self@),
                rows_model(data@).len() == i,
                forall|i2: int| 0 <= i2 < i ==> (#[trigger] rows_model(data@)[i2]).len() == rows,
                forall|i2: int, j2: int|
                    0 <= i2 < i && 0 <= j2 < rows
                        ==> #[trigger] rows_model(data@)[i2][j2] == self@[j2][i2],
            decreases cols - i,
        {
            let mut row: Vec<Scalar> = Vec::new();
            let mut j: usize = 0;
            while j < rows
                invariant
                    0 <= j <= rows,
                    mat_wf(self@),
                    rows == mat_rows(self@),
                    cols == mat_cols(self@),
                    i < cols,
                    row@.len() == j,
                    forall|j2: int| 0 <= j2 < j ==> (#[trigger] row@[j2])@ == self@[j2][i as int],
                decreases rows - j,
            {
                row.push(self.value_at(j, i));
                j += 1;
            }
            proof {
                lemma_rows_model_push(data@, row);
                assert(row_model(row) =~= Seq::new(rows as nat, |j2: int| self@[j2][i as int]));
            }
            data.push(row);
            i += 1;
        }
        proof {
            assert forall|i2: int, j2: int|
                0 <= i2 < cols && 0 <= j2 < rows implies sc_wf(
                #[trigger] rows_model(data@)[i2][j2]) by {
                assert(rows_model(data@)[i2][j2] == self@[j2][i2]);
            }
        }
        Matrix::new_exact(data)
    }

    /// Exact matrix product; `DimensionError` when the shapes do not fit,
    /// `Overflow` when some entry of the product is unrepresentable.
    pub fn mul(&self, other: &Matrix) -> (res: Result<Matrix, Error>)
        ensures
            (mat_cols(self@) != mat_rows(other@) ==> res == Err::<Matrix, Error>(
                Error::DimensionError,
            )),
            (mat_cols(self@) == mat_rows(other@) && mul_defined(self@, other@) ==> res is Ok
                && res->Ok_0@ == mat_mul_val(self@, other@)),
            (mat_cols(self@) == mat_rows(other@) && !mul_defined(self@, other@) ==> res
                == Err::<Matrix, Error>(Error::Overflow)),
    {
        proof {
            use_type_invariant(self);
            use_type_invariant(other);
        }
        let n = self.columns();
        if n != other.rows() {
            return Err(Error::DimensionError);
        }
        let rows = self.rows();
        let cols = other.columns();
        let mut data: Vec<Vec<Scalar>> = Vec::new();
        let mut i: usize = 0;
        while i < rows
            invariant
                0 <= i <= rows,
                mat_wf(self@),
                mat_wf(other@),
                rows == mat_rows(self@),
                cols == mat_cols(other@),
                n == mat_cols(self@),
                n == mat_rows(other@),
                rows_model(data@).len() == i,
                forall|i2: int| 0 <= i2 < i ==> (#[trigger] rows_model(data@)[i2]).len() == cols,
                forall|i2: int, j2: int|
                    0 <= i2 < i && 0 <= j2 < cols ==> dot(self@, other@, i2, j2) is Some,
                forall|i2: int, j2: int|
                    0 <= i2 < i && 0 <= j2 < cols
                        ==> #[trigger] rows_model(data@)[i2][j2] == dot(self@, other@, i2, j2)->Some_0,
                forall|i2: int, j2: int|
                    0 <= i2 < i && 0 <= j2 < cols ==> sc_wf(#[trigger] rows_model(data@)[i2][j2]),
            decreases rows - i,
        {
            let mut row: Vec<Scalar> = Vec::new();
            let mut j: usize = 0;
            while j < cols
                invariant
                    0 <= j <= cols,
                    i < rows,
                    mat_wf(self@),
                    mat_wf(other@),
                    rows == mat_rows(self@),
                    cols == mat_cols(other@),
                    n == mat_cols(self@),
                    n == mat_rows(other@),
                    row@.len() == j,
                    forall|j2: int| 0 <= j2 < j ==> dot(self@, other@, i as int, j2) is Some,
                    forall|j2: int|
                        0 <= j2 < j ==> (#[trigger] row@[j2])@ == dot(
                            self@,
                            other@,
                            i as int,
                            j2,
                        )->Some_0,
                    forall|j2: int| 0 <= j2 < j ==> sc_wf((#[trigger] row@[j2])@),
                decreases cols - j,
            {
                let mut acc = Scalar::zero();
                let mut t: usize = 0;
                while t < n
                    invariant
                        0 <= t <= n,
                        i < rows,
                        j < cols,
                        mat_wf(self@),
                        mat_wf(other@),
                        rows == mat_rows(self@),
                        cols == mat_cols(other@),
                        n == mat_cols(self@),
                        n == mat_rows(other@),
                        (Some(acc@) == dot_prefix(self@, other@, i as int, j as int, t as int)),
                    decreases n - t,
                {
                    let xr = &self.data[i];
                    let yr = &other.data[t];
                    proof {
                        assert(self@[i as int] == row_model(self.data@[i as int]));
                        assert(other@[t as int] == row_model(other.data@[t as int]));
                    }
                    let x = xr[t];
                    let y = yr[j];
                    proof {
                        assert(x@ == self@[i as int][t as int]);
                        assert(y@ == other@[t as int][j as int]);
                    }
                    let p = match x.mul(&y) {
                        Some(p) => p,
                        None => {
                            proof {
                                assert(dot_prefix(self@, other@, i as int, j as int, t as int + 1) is None);
                                lemma_dot_prefix_none(
                                    self@,
                                    other@,
                                    i as int,
                                    j as int,
                                    t as int + 1,
                                    n as int,
                                );
                                assert(dot(self@, other@, i as int, j as int) is None);
                                assert(!mul_defined(self@, other@));
                            }
                            return Err(Error::Overflow);
                        },
                    };
                    acc = match acc.add(&p) {
                        Some(s) => s,
                        None => {
                            proof {
                                assert(dot_prefix(self@, other@, i as int, j as int, t as int + 1) is None);
                                lemma_dot_prefix_none(
                                    self@,
                                    other@,
                                    i as int,
                                    j as int,
                                    t as int + 1,
                                    n as int,
                                );
                                assert(dot(self@, other@, i as int, j as int) is None);
                                assert(!mul_defined(self@, other@));
                            }
                            return Err(Error::Overflow);
                        },
                    };
                    t += 1;
                }
                proof {
                    use_type_invariant(&acc);
                }
                row.push(acc);
                j += 1;
            }
            proof {
                lemma_rows_model_push(data@, row);
                assert(forall|j2: int| 0 <= j2 < cols ==> row_model(row)[j2] == (#[trigger] row@[j2])@);
            }
            data.push(row);
            i += 1;
        }
        proof {
            assert(rows_model(data@) =~~= mat_mul_val(self@, other@));
        }
        let r = Matrix::new_exact(data);
        Ok(r)
    }
}

} // verus!
