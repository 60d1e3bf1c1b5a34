use vstd::prelude::*;

verus! {

/// A distance model: the number of cities and the cost of travelling between two of them.
pub trait Tsp {
    /// Whether the model is well formed.
    spec fn wf(&self) -> bool;

    /// The number of cities.
    spec fn dim_spec(&self) -> nat;

    /// The cost of travelling from city `a` to city `b`.
    spec fn weight_spec(&self, a: int, b: int) -> nat;

    fn dim(&self) -> (r: usize)
        requires
            self.wf(),
        ensures
            r == self.dim_spec(),
    ;

    fn weight(&self, a: usize, b: usize) -> (r: u64)
        requires
            self.wf(),
            a < self.dim_spec(),
            b < self.dim_spec(),
        ensures
            r == self.weight_spec(a as int, b as int),
    ;

    /// Costs are symmetric, and staying at a city costs nothing.
    proof fn lemma_weight_laws(&self, a: int, b: int)
        requires
            self.wf(),
            0 <= a < self.dim_spec(),
            0 <= b < self.dim_spec(),
        ensures
            self.weight_spec(a, b) == self.weight_spec(b, a),
            self.weight_spec(a, a) == 0,
    ;
}

/// Why a cost table cannot become a distance model.
#[derive(Debug, Clone, Copy, PartialEq, Eq, Structural)]
pub enum MatrixError {
    /// The table does not have one row per city.
    RowCount,
    /// The row of this city is shorter than its index plus one.
    ShortRow(usize),
    /// The cost from this city to itself is not zero.
    NonZeroDiagonal(usize),
    /// `dim * dim` does not fit in memory indices.
    TooLarge,
}

/// A precomputed, symmetric cost table of `dim * dim` entries, stored row by row.
pub struct Matrix {
    dim: usize,
    matrix: Vec<u64>,
}

pub open spec fn cell(a: int, b: int, n: int) -> int {
    a * n + b
}

proof fn lemma_cell_bounds(a: int, b: int, n: int)
    requires
        0 <= a < n,
        0 <= b < n,
    ensures
        0 <= cell(a, b, n) < n * n,
        cell(a, b, n) + 1 <= (a + 1) * n,
        a * n <= cell(a, b, n),
{
    assert(a * n + b < n * n) by (nonlinear_arith)
        requires
            0 <= a < n,
            0 <= b < n,
    ;
    assert(0 <= a * n) by (nonlinear_arith)
        requires
            0 <= a,
            0 <= n,
    ;
    assert((a + 1) * n == a * n + n) by (nonlinear_arith);
}

proof fn lemma_cell_order(a1: int, b1: int, a2: int, b2: int, n: int)
    requires
        0 <= a1 < a2,
        0 <= b1 < n,
        0 <= b2 < n,
    ensures
        cell(a1, b1, n) < cell(a2, b2, n),
{
    assert((a1 + 1) * n <= a2 * n) by (nonlinear_arith)
        requires
            a1 + 1 <= a2,
            0 <= n,
    ;
    assert((a1 + 1) * n == a1 * n + n) by (nonlinear_arith);
}

/// The cost between `a` and `b` read from a lower-triangular table: row `max(a, b)`,
/// column `min(a, b)`.
pub open spec fn lower_diag_entry(rows: Seq<Vec<u64>>, a: int, b: int) -> u64 {
    if a < b {
        rows[b]@[a]
    } else {
        rows[a]@[b]
    }
}

/// The cost from each city to itself is zero.
pub open spec fn zero_diagonal(rows: Seq<Vec<u64>>, dim: int) -> bool {
    forall|i: int| 0 <= i < dim ==> #[trigger] rows[i]@[i] == 0
}

/// A lower-triangular table with one row per city, row `i` holding at least `i + 1` costs.
pub open spec fn lower_diag_complete(rows: Seq<Vec<u64>>, dim: int) -> bool {
    &&& rows.len() == dim
    &&& forall|i: int| 0 <= i < dim ==> #[trigger] rows[i]@.len() > i
}

impl Matrix {
    pub closed spec fn dim_view(&self) -> nat {
        self.dim as nat
    }

    pub closed spec fn entry(&self, a: int, b: int) -> nat {
        self.matrix@[cell(a, b, self.dim as int)] as nat
    }

    pub closed spec fn well_formed(&self) -> bool {
        &&& self.matrix@.len() == self.dim * self.dim
        &&& self.dim * self.dim <= usize::MAX
        &&& forall|a: int| 0 <= a < self.dim ==> #[trigger] self.entry(a, a) == 0
        &&& forall|a: int, b: int|
            0 <= a < self.dim && 0 <= b < self.dim ==> #[trigger] self.entry(a, b) == self.entry(
                b,
                a,
            )
    }

    /// Builds the full symmetric table from a lower-triangular one.
    pub fn new_lower_diag_row(rows: &Vec<Vec<u64>>, dim: usize) -> (r: Result<Matrix, MatrixError>)
        ensures
            r is Ok <==> lower_diag_complete(rows@, dim as int) && zero_diagonal(rows@, dim as int)
                && dim * dim <= usize::MAX,
            rows@.len() != dim ==> r == Err::<Matrix, MatrixError>(MatrixError::RowCount),
            r matches Err(MatrixError::ShortRow(i)) ==> i < dim && rows@[i as int]@.len() <= i
                && rows@.len() == dim,
            rows@.len() == dim && !lower_diag_complete(rows@, dim as int) ==> r matches Err(
                MatrixError::ShortRow(_),
            ),
            r matches Err(MatrixError::NonZeroDiagonal(i)) ==> lower_diag_complete(rows@, dim as int)
                && i < dim && rows@[i as int]@[i as int] != 0,
            lower_diag_complete(rows@, dim as int) && !zero_diagonal(rows@, dim as int) ==> r matches Err(
                MatrixError::NonZeroDiagonal(_),
            ),
            r == Err::<Matrix, MatrixError>(MatrixError::TooLarge) <==> lower_diag_complete(
                rows@,
                dim as int,
            ) && zero_diagonal(rows@, dim as int) && dim * dim > usize::MAX,
            r matches Ok(m) ==> {
                &&& m.wf()
                &&& m.dim_spec() == dim
                &&& forall|a: int, b: int|
                    0 <= a < dim && 0 <= b < dim ==> #[trigger] m.weight_spec(a, b)
                        == lower_diag_entry(rows@, a, b) as nat
            },
    {
        if rows.len() != dim {
            return Err(MatrixError::RowCount);
        }
        let mut k: usize = 0;
        while k < dim
            invariant
                k <= dim,
                rows@.len() == dim,
                forall|i: int| 0 <= i < k ==> #[trigger] rows@[i]@.len() > i,
            decreases dim - k,
        {
            if rows[k].len() <= k {
                return Err(MatrixError::ShortRow(k));
            }
            k += 1;
        }
        k = 0;
        while k < dim
            invariant
                k <= dim,
                lower_diag_complete(rows@, dim as int),
                forall|i: int| 0 <= i < k ==> #[trigger] rows@[i]@[i] == 0,
            decreases dim - k,
        {
            assert(rows@[k as int]@.len() > k);
            if rows[k][k] != 0 {
                return Err(MatrixError::NonZeroDiagonal(k));
            }
            k += 1;
        }
        let size = match dim.checked_mul(dim) {
            Some(s) => s,
            None => {
                return Err(MatrixError::TooLarge);
            },
        };
        let mut v: Vec<u64> = Vec::with_capacity(size);
        let mut i: usize = 0;
        while i < dim
            invariant
                i <= dim,
                size == dim * dim,
                lower_diag_complete(rows@, dim as int),
                zero_diagonal(rows@, dim as int),
                v@.len() == i * dim,
                forall|a: int, b: int|
                    0 <= a < i && 0 <= b < dim ==> #[trigger] v@[cell(a, b, dim as int)]
                        == lower_diag_entry(rows@, a, b),
            decreases dim - i,
        {
            let mut j: usize = 0;
            while j < dim
                invariant
                    i < dim,
                    j <= dim,
                    size == dim * dim,
                    lower_diag_complete(rows@, dim as int),
                    zero_diagonal(rows@, dim as int),
                    v@.len() == i * dim + j,
                    forall|a: int, b: int|
                        0 <= a < i && 0 <= b < dim ==> #[trigger] v@[cell(a, b, dim as int)]
                            == lower_diag_entry(rows@, a, b),
                    forall|b: int|
                        0 <= b < j ==> #[trigger] v@[cell(i as int, b, dim as int)]
                            == lower_diag_entry(rows@, i as int, b),
                decreases dim - j,
            {
                proof {
                    lemma_cell_bounds(i as int, j as int, dim as int);
                    assert(rows@[i as int]@.len() > i);
                    assert(rows@[j as int]@.len() > j);
                }
                let x = if i < j {
                    rows[j][i]
                } else {
                    rows[i][j]
                };
                let ghost old_v = v@;
                v.push(x);
                proof {
                    assert forall|a: int, b: int|
                        0 <= a < i && 0 <= b < dim implies #[trigger] v@[cell(a, b, dim as int)]
                            == lower_diag_entry(rows@, a, b) by {
                        lemma_cell_order(a, b, i as int, j as int, dim as int);
                        assert(v@[cell(a, b, dim as int)] == old_v[cell(a, b, dim as int)]);
                    }
                    assert forall|b: int| 0 <= b < j + 1 implies #[trigger] v@[cell(
                        i as int,
                        b,
                        dim as int,
                    )] == lower_diag_entry(rows@, i as int, b) by {
                        if b < j {
                            assert(v@[cell(i as int, b, dim as int)] == old_v[cell(i as int, b, dim as int)]);
                        }
                    }
                }
                j += 1;
            }
            proof {
                assert((i + 1) * dim == i * dim + dim) by (nonlinear_arith);
            }
            i += 1;
        }
        let m = Matrix { dim, matrix: v };
        proof {
            assert forall|a: int| 0 <= a < dim implies #[trigger] m.entry(a, a) == 0 by {
                assert(v@[cell(a, a, dim as int)] == lower_diag_entry(rows@, a, a));
            }
            assert forall|a: int, b: int|
                0 <= a < dim && 0 <= b < dim implies #[trigger] m.entry(a, b) == m.entry(b, a) by {
                assert(v@[cell(a, b, dim as int)] == lower_diag_entry(rows@, a, b));
                assert(v@[cell(b, a, dim as int)] == lower_diag_entry(rows@, b, a));
            }
            assert forall|a: int, b: int|
                0 <= a < dim && 0 <= b < dim implies #[trigger] m.weight_spec(a, b)
                    == lower_diag_entry(rows@, a, b) as nat by {
                assert(v@[cell(a, b, dim as int)] == lower_diag_entry(rows@, a, b));
            }
        }
        Ok(m)
    }
}

impl Tsp for Matrix {
    open spec fn wf(&self) -> bool {
        self.well_formed()
    }

    open spec fn dim_spec(&self) -> nat {
        self.dim_view()
    }

    open spec fn weight_spec(&self, a: int, b: int) -> nat {
        self.entry(a, b)
    }

    fn dim(&self) -> (r: usize) {
        self.dim
    }

    proof fn lemma_weight_laws(&self, a: int, b: int) {
    }

    fn weight(&self, a: usize, b: usize) -> (r: u64) {
        proof {
            lemma_cell_bounds(a as int, b as int, self.dim as int);
        }
        self.matrix[a * self.dim + b]
    }
}

/// The cost table is symmetric: going from `a` to `b` costs as much as going back.
pub proof fn lemma_matrix_symmetric(m: &Matrix, a: int, b: int)
    requires
        m.wf(),
        0 <= a < m.dim_spec(),
        0 <= b < m.dim_spec(),
    ensures
        m.weight_spec(a, b) == m.weight_spec(b, a),
{
}

/// Every cost of a table built from a lower-triangular input is the input's entry at
/// row `b`, column `a`, for `a <= b`.
pub proof fn lemma_matrix_matches_input(rows: Seq<Vec<u64>>, dim: usize, m: &Matrix, a: int, b: int)
    requires
        m.wf(),
        m.dim_spec() == dim,
        lower_diag_complete(rows, dim as int),
        forall|x: int, y: int|
            0 <= x < dim && 0 <= y < dim ==> #[trigger] m.weight_spec(x, y) == lower_diag_entry(
                rows,
                x,
                y,
            ) as nat,
        0 <= a <= b < dim,
    ensures
        m.weight_spec(a, b) == rows[b]@[a] as nat,
        m.weight_spec(b, a) == rows[b]@[a] as nat,
{
    assert(m.weight_spec(a, b) == lower_diag_entry(rows, a, b) as nat);
    assert(m.weight_spec(b, a) == lower_diag_entry(rows, b, a) as nat);
}

} // verus!
