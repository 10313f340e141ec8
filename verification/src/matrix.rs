//! Matrices of exact rationals.
//!
//! A `Matrix` is a non-empty rectangle of `Rat` entries held as row
//! vectors. Multiplication, transposition and Gauss-Jordan inversion are
//! exact; an operation returns `None` only when an entry leaves `i64`
//! range, and inversion also returns `None` for a singular matrix.

use vstd::prelude::*;

verus! {

use crate::rat::{Rat, RatV, rat_wf, rat_eq, rat_int, rat_add, rat_mul, lemma_rat_add_cong,
    lemma_rat_mul_cong, lemma_rat_eq_trans, lemma_rat_eq_sym};
use crate::vector::{Vector, dot_v, dot_partial, seq_wf, vec_eq, unit_v, lemma_dot_unit,
    lemma_dot_wf, lemma_dot_comm, lemma_dot_cong_first, lemma_dot_cong_second,
    lemma_dot_add_left, lemma_dot_scale_left, lemma_dot_zero, seq_add, seq_scale};

/// `m` is an `r` by `c` grid of rational values.
pub open spec fn is_matrix(m: Seq<Seq<RatV>>, r: int, c: int) -> bool {
    m.len() == r && forall|i: int| 0 <= i < r ==> (#[trigger] m[i]).len() == c
}

/// Every entry of the grid is well formed.
pub open spec fn mat_wf(m: Seq<Seq<RatV>>) -> bool {
    forall|i: int| 0 <= i < m.len() ==> seq_wf(#[trigger] m[i])
}

/// Column `j` of the grid, as a sequence of rational values.
pub open spec fn col_v(m: Seq<Seq<RatV>>, j: int) -> Seq<RatV> {
    Seq::new(m.len(), |i: int| m[i][j])
}

/// Entry `(i, j)` of the matrix product `a * b`: the dot product of row
/// `i` of `a` with column `j` of `b`.
pub open spec fn mul_entry(a: Seq<Seq<RatV>>, b: Seq<Seq<RatV>>, i: int, j: int) -> RatV {
    dot_v(a[i], col_v(b, j))
}

/// Entry `(i, j)` of the identity matrix.
pub open spec fn ident_entry(i: int, j: int) -> RatV {
    if i == j {
        rat_int(1)
    } else {
        rat_int(0)
    }
}

/// The `n` by `n` identity matrix as a grid of rational values.
pub open spec fn ident_v(n: int) -> Seq<Seq<RatV>> {
    Seq::new(n as nat, |i: int| Seq::new(n as nat, |j: int| ident_entry(i, j)))
}

/// Two grids denote the same matrix of numbers.
pub open spec fn mat_eq(a: Seq<Seq<RatV>>, b: Seq<Seq<RatV>>) -> bool {
    a.len() == b.len() && forall|i: int| 0 <= i < a.len() ==> vec_eq(#[trigger] a[i], #[trigger] b[i])
}

/// The product `a * b` of two `n` by `n` grids is the identity.
pub open spec fn mul_is_ident(a: Seq<Seq<RatV>>, b: Seq<Seq<RatV>>, n: int) -> bool {
    forall|i: int, j: int|
        0 <= i < n && 0 <= j < n ==> rat_eq(#[trigger] mul_entry(a, b, i, j), ident_entry(i, j))
}

/// `b` is a two-sided inverse of `a` among `n` by `n` grids.
pub open spec fn mat_is_inverse(a: Seq<Seq<RatV>>, b: Seq<Seq<RatV>>, n: int) -> bool {
    mul_is_ident(a, b, n) && mul_is_ident(b, a, n)
}

/// A non-empty rectangle of rational entries, stored by rows.
#[derive(Debug)]
pub struct Matrix {
    rows: Vec<Vector>,
    cols: usize,
}

impl View for Matrix {
    type V = Seq<Seq<RatV>>;

    closed spec fn view(&self) -> Seq<Seq<RatV>> {
        self.rows@.map_values(|v: Vector| v@)
    }
}

impl Matrix {
    /// Number of columns; every row has this length.
    pub closed spec fn spec_cols(&self) -> int {
        self.cols as int
    }

    /// Representation invariant: at least one row, at least one column,
    /// and all rows of the same length.
    #[verifier::type_invariant]
    pub open spec fn inv(self) -> bool {
        self@.len() >= 1 && self.spec_cols() >= 1 && forall|i: int|
            0 <= i < self@.len() ==> (#[trigger] self@[i]).len() == self.spec_cols()
    }

    /// Wraps the given rows, which must form a non-empty rectangle;
    /// a ragged or empty argument is a caller bug.
    pub fn new(data: Vec<Vector>) -> (m: Matrix)
        requires
            data@.len() >= 1,
            data@[0]@.len() >= 1,
            forall|i: int| 0 <= i < data@.len() ==> (#[trigger] data@[i]@).len() == data@[0]@.len(),
        ensures
            m@.len() == data@.len(),
            m.spec_cols() == data@[0]@.len(),
            forall|i: int| 0 <= i < data@.len() ==> #[trigger] m@[i] == data@[i]@,
    {
        let cols: usize = data[0].len();
        Matrix { rows: data, cols }
    }

    /// Number of rows.
    pub fn num_rows(&self) -> (r: usize)
        ensures
            r == self@.len(),
    {
        self.rows.len()
    }

    /// Number of columns.
    pub fn num_cols(&self) -> (c: usize)
        ensures
            c == self.spec_cols(),
            forall|i: int| 0 <= i < self@.len() ==> (#[trigger] self@[i]).len() == c,
            self@.len() >= 1 && c >= 1,
    {
        proof {
            use_type_invariant(self);
        }
        self.cols
    }

    /// The entry at row `r`, column `c`.
    pub fn get(&self, r: usize, c: usize) -> (v: Rat)
        requires
            r < self@.len(),
            c < self@[r as int].len(),
        ensures
            v@ == self@[r as int][c as int],
    {
        self.rows[r].get(c)
    }

    /// The columns of the matrix, each as a vector of length `rows`.
    pub fn columns(&self) -> (out: Vec<Vector>)
        ensures
            out@.len() == self.spec_cols(),
            forall|j: int|
                0 <= j < out@.len() ==> (#[trigger] out@[j]@) =~= col_v(self@, j),
            forall|j: int| 0 <= j < out@.len() ==> seq_wf(#[trigger] out@[j]@),
    {
        proof {
            use_type_invariant(self);
        }
        let nr: usize = self.rows.len();
        let nc: usize = self.cols;
        let mut out: Vec<Vector> = Vec::new();
        let mut j: usize = 0;
        while j < nc
            invariant
                nr == self@.len(),
                nc == self.spec_cols(),
                forall|i: int| 0 <= i < self@.len() ==> (#[trigger] self@[i]).len() == nc,
                j <= nc,
                out@.len() == j,
                forall|jj: int| 0 <= jj < j ==> (#[trigger] out@[jj]@) =~= col_v(self@, jj),
                forall|jj: int| 0 <= jj < j ==> seq_wf(#[trigger] out@[jj]@),
            decreases nc - j,
        {
            let mut col: Vec<Rat> = Vec::new();
            let mut i: usize = 0;
            while i < nr
                invariant
                    nr == self@.len(),
                    nc == self.spec_cols(),
                    forall|k: int| 0 <= k < self@.len() ==> (#[trigger] self@[k]).len() == nc,
                    j < nc,
                    i <= nr,
                    col@.len() == i,
                    forall|k: int| 0 <= k < i ==> col@[k]@ == self@[k][j as int],
                    forall|k: int| 0 <= k < i ==> rat_wf(#[trigger] col@[k]@),
                decreases nr - i,
            {
                proof {
                    assert(self@[i as int] == self.rows@[i as int]@);
                }
                let e = self.rows[i].get(j);
                proof {
                    use_type_invariant(e);
                }
                col.push(e);
                i = i + 1;
            }
            out.push(Vector::new(col));
            proof {
                assert(out@[j as int]@ =~= col_v(self@, j as int));
                assert(seq_wf(out@[j as int]@));
            }
            j = j + 1;
        }
        out
    }

    /// The transposed matrix: entry `(i, j)` becomes entry `(j, i)`.
    pub fn transpose(&self) -> (m: Matrix)
        ensures
            m@.len() == self.spec_cols(),
            forall|j: int|
                0 <= j < m@.len() ==> (#[trigger] m@[j]).len() == self@.len(),
            forall|j: int, i: int|
                0 <= j < m@.len() && 0 <= i < self@.len() ==> #[trigger] m@[j][i] == self@[i][j],
            mat_wf(m@),
    {
        proof {
            use_type_invariant(self);
        }
        let cols = self.columns();
        Matrix::new(cols)
    }

    /// A single-column matrix as the vector of its column.
    pub fn to_vector(&self) -> (v: Vector)
        requires
            self.spec_cols() == 1,
        ensures
            v@.len() == self@.len(),
            forall|i: int| 0 <= i < self@.len() ==> v@[i] == self@[i][0],
    {
        proof {
            use_type_invariant(self);
        }
        let nr: usize = self.rows.len();
        let mut col: Vec<Rat> = Vec::new();
        let mut i: usize = 0;
        while i < nr
            invariant
                nr == self@.len(),
                forall|k: int| 0 <= k < self@.len() ==> (#[trigger] self@[k]).len() == 1,
                i <= nr,
                col@.len() == i,
                forall|k: int| 0 <= k < i ==> col@[k]@ == self@[k][0],
            decreases nr - i,
        {
            proof {
                assert(self@[i as int] == self.rows@[i as int]@);
            }
            col.push(self.rows[i].get(0));
            i = i + 1;
        }
        Vector::new(col)
    }

    /// The `n` by `n` identity matrix.
    pub fn identity(n: usize) -> (m: Matrix)
        requires
            n >= 1,
        ensures
            m@.len() == n,
            forall|i: int| 0 <= i < n ==> (#[trigger] m@[i]).len() == n,
            forall|i: int, j: int|
                0 <= i < n && 0 <= j < n ==> #[trigger] m@[i][j] == ident_entry(i, j),
    {
        let mut rows: Vec<Vector> = Vec::new();
        let mut i: usize = 0;
        while i < n
            invariant
                i <= n,
                rows@.len() == i,
                forall|k: int| 0 <= k < i ==> (#[trigger] rows@[k]@).len() == n,
                forall|k: int, j: int|
                    0 <= k < i && 0 <= j < n ==> #[trigger] rows@[k]@[j] == ident_entry(k, j),
            decreases n - i,
        {
            let mut row: Vec<Rat> = Vec::new();
            let mut j: usize = 0;
            while j < n
                invariant
                    j <= n,
                    row@.len() == j,
                    forall|k: int| 0 <= k < j ==> row@[k]@ == ident_entry(i as int, k),
                decreases n - j,
            {
                if i == j {
                    row.push(Rat::from_int(1));
                } else {
                    row.push(Rat::from_int(0));
                }
                j = j + 1;
            }
            rows.push(Vector::new(row));
            i = i + 1;
        }
        Matrix::new(rows)
    }

    /// The matrix product. The inner dimensions must match: an `R` by
    /// `C` matrix times a `C` by `K` matrix yields an `R` by `K` matrix.
    pub fn mul(&self, other: &Matrix) -> (r: Option<Matrix>)
        requires
            self.spec_cols() == other@.len(),
        ensures
            r matches Some(m) ==> m@.len() == self@.len() && m.spec_cols() == other.spec_cols()
                && (forall|i: int|
                0 <= i < m@.len() ==> (#[trigger] m@[i]).len() == other.spec_cols()) && (forall|
                i: int,
                j: int,
            |
                0 <= i < self@.len() && 0 <= j < other.spec_cols() ==> rat_eq(
                    #[trigger] m@[i][j],
                    mul_entry(self@, other@, i, j),
                ) && rat_wf(m@[i][j])),
            r is Some <==> forall|i: int, j: int|
                0 <= i < self@.len() && 0 <= j < other.spec_cols() ==> #[trigger] dot_partial(
                    self@[i],
                    col_v(other@, j),
                ) is Some,
    {
        proof {
            use_type_invariant(self);
            use_type_invariant(other);
        }
        let nr: usize = self.rows.len();
        let nk: usize = other.num_cols();
        let bcols = other.columns();
        let mut rows: Vec<Vector> = Vec::new();
        let mut i: usize = 0;
        while i < nr
            invariant
                nr == self@.len(),
                nk == other.spec_cols(),
                forall|k: int| 0 <= k < self@.len() ==> (#[trigger] self@[k]).len() == other@.len(),
                bcols@.len() == nk,
                forall|jj: int| 0 <= jj < nk ==> (#[trigger] bcols@[jj]@) =~= col_v(other@, jj),
                i <= nr,
                rows@.len() == i,
                forall|k: int| 0 <= k < i ==> (#[trigger] rows@[k]@).len() == nk,
                forall|k: int, j: int|
                    0 <= k < i && 0 <= j < nk ==> rat_eq(
                        #[trigger] rows@[k]@[j],
                        mul_entry(self@, other@, k, j),
                    ) && rat_wf(rows@[k]@[j]),
                forall|k: int, jj: int|
                    0 <= k < i && 0 <= jj < nk ==> #[trigger] dot_partial(
                        self@[k],
                        col_v(other@, jj),
                    ) is Some,
            decreases nr - i,
        {
            let mut row: Vec<Rat> = Vec::new();
            let mut j: usize = 0;
            while j < nk
                invariant
                    nr == self@.len(),
                    nk == other.spec_cols(),
                    forall|k: int|
                        0 <= k < self@.len() ==> (#[trigger] self@[k]).len() == other@.len(),
                    bcols@.len() == nk,
                    forall|jj: int| 0 <= jj < nk ==> (#[trigger] bcols@[jj]@) =~= col_v(other@, jj),
                    i < nr,
                    j <= nk,
                    row@.len() == j,
                    forall|k: int|
                        0 <= k < j ==> rat_eq(
                            #[trigger] row@[k]@,
                            mul_entry(self@, other@, i as int, k),
                        ) && rat_wf(row@[k]@),
                    forall|k: int, jj: int|
                        0 <= k < i && 0 <= jj < nk ==> #[trigger] dot_partial(
                            self@[k],
                            col_v(other@, jj),
                        ) is Some,
                    forall|jj: int|
                        0 <= jj < j ==> #[trigger] dot_partial(
                            self@[i as int],
                            col_v(other@, jj),
                        ) is Some,
                decreases nk - j,
            {
                proof {
                    assert(self@[i as int] == self.rows@[i as int]@);
                    assert(bcols@[j as int]@ =~= col_v(other@, j as int));
                    assert(col_v(other@, j as int).len() == other@.len());
                }
                match self.rows[i].dot(&bcols[j]) {
                    Some(c) => {
                        proof {
                            use_type_invariant(c);
                            assert(dot_partial(self@[i as int], col_v(other@, j as int))
                                is Some);
                        }
                        row.push(c)
                    },
                    None => {
                        proof {
                            assert(dot_partial(self@[i as int], col_v(other@, j as int))
                                is None);
                        }
                        return None;
                    },
                }
                j = j + 1;
            }
            rows.push(Vector::new(row));
            i = i + 1;
        }
        proof {
            assert(rows@[0]@.len() == nk);
        }
        Some(Matrix::new(rows))
    }
}

/// A cell of an `n` by `n` grid stored row-major in a flat vector.
proof fn lemma_grid_index(i: int, j: int, n: int) by (nonlinear_arith)
    requires
        0 <= i < n,
        0 <= j < n,
    ensures
        0 <= i * n + j < n * n,
{
}

/// Reads cell `(i, j)` of a flat row-major `n` by `n` grid.
fn gat(g: &Vec<Rat>, n: usize, i: usize, j: usize) -> (r: Rat)
    requires
        g@.len() == n * n,
        n * n <= usize::MAX,
        i < n,
        j < n,
    ensures
        r@ == g@[i as int * n + j]@,
{
    proof {
        lemma_grid_index(i as int, j as int, n as int);
    }
    g[i * n + j]
}

/// Writes cell `(i, j)` of a flat row-major `n` by `n` grid.
fn gput(g: &mut Vec<Rat>, n: usize, i: usize, j: usize, v: Rat)
    requires
        old(g)@.len() == n * n,
        n * n <= usize::MAX,
        i < n,
        j < n,
    ensures
        final (g)@.len() == n * n,
{
    proof {
        lemma_grid_index(i as int, j as int, n as int);
    }
    g.set(i * n + j, v);
}

/// Swaps rows `r1` and `r2` of a flat row-major `n` by `n` grid.
fn gswap_rows(g: &mut Vec<Rat>, n: usize, r1: usize, r2: usize)
    requires
        old(g)@.len() == n * n,
        n * n <= usize::MAX,
        r1 < n,
        r2 < n,
    ensures
        final (g)@.len() == n * n,
{
    let mut j: usize = 0;
    while j < n
        invariant
            g@.len() == n * n,
            n * n <= usize::MAX,
            r1 < n,
            r2 < n,
            j <= n,
        decreases n - j,
    {
        let a = gat(g, n, r1, j);
        let b = gat(g, n, r2, j);
        gput(g, n, r1, j, b);
        gput(g, n, r2, j, a);
        j = j + 1;
    }
}

impl Matrix {
    /// The inverse of a square matrix, found by Gauss-Jordan elimination
    /// with partial pivoting on an augmented pair of grids and then
    /// verified against the definition, so that a returned matrix is a
    /// two-sided inverse. `None` is returned for a singular matrix, and
    /// also when an intermediate value leaves `i64` range.
    pub fn invert(&self) -> (r: Option<Matrix>)
        requires
            self@.len() == self.spec_cols(),
            self@.len() * self@.len() <= usize::MAX,
        ensures
            r matches Some(m) ==> m@.len() == self@.len() && (forall|i: int|
                0 <= i < m@.len() ==> (#[trigger] m@[i]).len() == self@.len())
                && mat_is_inverse(self@, m@, self@.len() as int) && mat_wf(m@),
    {
        proof {
            use_type_invariant(self);
        }
        let n: usize = self.rows.len();
        // the left grid starts as this matrix, the right as the identity;
        // row operations take the left to the identity and the right to
        // the candidate inverse
        let mut left: Vec<Rat> = Vec::new();
        let mut right: Vec<Rat> = Vec::new();
        let mut i: usize = 0;
        while i < n
            invariant
                n == self@.len() == self.spec_cols(),
                n * n <= usize::MAX,
                forall|k: int| 0 <= k < self@.len() ==> (#[trigger] self@[k]).len() == n,
                i <= n,
                left@.len() == i * n,
                right@.len() == i * n,
            decreases n - i,
        {
            let mut j: usize = 0;
            while j < n
                invariant
                    n == self@.len() == self.spec_cols(),
                    n * n <= usize::MAX,
                    forall|k: int| 0 <= k < self@.len() ==> (#[trigger] self@[k]).len() == n,
                    i < n,
                    j <= n,
                    left@.len() == i * n + j,
                    right@.len() == i * n + j,
                decreases n - j,
            {
                proof {
                    lemma_grid_index(i as int, j as int, n as int);
                }
                left.push(self.get(i, j));
                if i == j {
                    right.push(Rat::from_int(1));
                } else {
                    right.push(Rat::from_int(0));
                }
                j = j + 1;
            }
            proof {
                assert(i as int * n + n == (i + 1) as int * n) by (nonlinear_arith);
            }
            i = i + 1;
        }
        let mut i: usize = 0;
        while i < n
            invariant
                n * n <= usize::MAX,
                i <= n,
                left@.len() == n * n,
                right@.len() == n * n,
            decreases n - i,
        {
            // partial pivoting: bring a row with a nonzero entry in
            // column `i` up to row `i`
            if gat(&left, n, i, i).is_zero() {
                let mut r2: usize = i + 1;
                while r2 < n
                    invariant
                        n * n <= usize::MAX,
                        i < n,
                        i < r2,
                        left@.len() == n * n,
                        right@.len() == n * n,
                    decreases n - r2,
                {
                    if !gat(&left, n, r2, i).is_zero() {
                        gswap_rows(&mut left, n, i, r2);
                        gswap_rows(&mut right, n, i, r2);
                        break ;
                    }
                    r2 = r2 + 1;
                }
            }
            let pivot = gat(&left, n, i, i);
            if pivot.is_zero() {
                // no usable pivot in this column: singular
                return None;
            }
            // normalize the pivot row
            let mut j: usize = 0;
            while j < n
                invariant
                    n * n <= usize::MAX,
                    i < n,
                    j <= n,
                    left@.len() == n * n,
                    right@.len() == n * n,
                decreases n - j,
            {
                let lv = match gat(&left, n, i, j).div(&pivot) {
                    Some(c) => c,
                    None => {
                        return None;
                    },
                };
                gput(&mut left, n, i, j, lv);
                let rv = match gat(&right, n, i, j).div(&pivot) {
                    Some(c) => c,
                    None => {
                        return None;
                    },
                };
                gput(&mut right, n, i, j, rv);
                j = j + 1;
            }
            // eliminate column `i` from every other row
            let mut r2: usize = 0;
            while r2 < n
                invariant
                    n * n <= usize::MAX,
                    i < n,
                    r2 <= n,
                    left@.len() == n * n,
                    right@.len() == n * n,
                decreases n - r2,
            {
                if r2 != i {
                    let factor = gat(&left, n, r2, i);
                    if !factor.is_zero() {
                        let mut c: usize = 0;
                        while c < n
                            invariant
                                n * n <= usize::MAX,
                                i < n,
                                r2 < n,
                                c <= n,
                                left@.len() == n * n,
                                right@.len() == n * n,
                            decreases n - c,
                        {
                            let lt = match factor.mul(&gat(&left, n, i, c)) {
                                Some(p) => p,
                                None => {
                                    return None;
                                },
                            };
                            let lv = match gat(&left, n, r2, c).sub(&lt) {
                                Some(p) => p,
                                None => {
                                    return None;
                                },
                            };
                            gput(&mut left, n, r2, c, lv);
                            let rt = match factor.mul(&gat(&right, n, i, c)) {
                                Some(p) => p,
                                None => {
                                    return None;
                                },
                            };
                            let rv = match gat(&right, n, r2, c).sub(&rt) {
                                Some(p) => p,
                                None => {
                                    return None;
                                },
                            };
                            gput(&mut right, n, r2, c, rv);
                            c = c + 1;
                        }
                    }
                }
                r2 = r2 + 1;
            }
            i = i + 1;
        }
        // rebuild the candidate from the right grid
        let mut rows: Vec<Vector> = Vec::new();
        let mut i: usize = 0;
        while i < n
            invariant
                n * n <= usize::MAX,
                n >= 1,
                i <= n,
                right@.len() == n * n,
                rows@.len() == i,
                forall|k: int| 0 <= k < i ==> (#[trigger] rows@[k]@).len() == n,
                forall|k: int| 0 <= k < i ==> seq_wf(#[trigger] rows@[k]@),
            decreases n - i,
        {
            let mut row: Vec<Rat> = Vec::new();
            let mut j: usize = 0;
            while j < n
                invariant
                    n * n <= usize::MAX,
                    i < n,
                    j <= n,
                    right@.len() == n * n,
                    row@.len() == j,
                    forall|k: int| 0 <= k < j ==> rat_wf(#[trigger] row@[k]@),
                decreases n - j,
            {
                let e = gat(&right, n, i, j);
                proof {
                    use_type_invariant(e);
                }
                row.push(e);
                j = j + 1;
            }
            rows.push(Vector::new(row));
            proof {
                assert(seq_wf(rows@[i as int]@));
            }
            i = i + 1;
        }
        let cand = Matrix::new(rows);
        // verify the candidate: only a checked two-sided inverse leaves
        // this function
        let p1 = match self.mul(&cand) {
            Some(p) => p,
            None => {
                return None;
            },
        };
        let p2 = match cand.mul(self) {
            Some(p) => p,
            None => {
                return None;
            },
        };
        let id = Matrix::identity(n);
        let ok1 = p1 == id;
        let ok2 = p2 == id;
        if ok1 && ok2 {
            proof {
                assert forall|i: int, j: int| 0 <= i < n && 0 <= j < n implies rat_eq(
                    #[trigger] mul_entry(self@, cand@, i, j),
                    ident_entry(i, j),
                ) by {
                    assert(vec_eq(p1@[i], id@[i]));
                    assert(rat_eq(p1@[i][j], id@[i][j]));
                    lemma_rat_eq_sym(p1@[i][j], mul_entry(self@, cand@, i, j));
                    lemma_rat_eq_trans(mul_entry(self@, cand@, i, j), p1@[i][j], ident_entry(i, j));
                }
                assert forall|i: int, j: int| 0 <= i < n && 0 <= j < n implies rat_eq(
                    #[trigger] mul_entry(cand@, self@, i, j),
                    ident_entry(i, j),
                ) by {
                    assert(vec_eq(p2@[i], id@[i]));
                    assert(rat_eq(p2@[i][j], id@[i][j]));
                    lemma_rat_eq_sym(p2@[i][j], mul_entry(cand@, self@, i, j));
                    lemma_rat_eq_trans(mul_entry(cand@, self@, i, j), p2@[i][j], ident_entry(i, j));
                }
            }
            Some(cand)
        } else {
            None
        }
    }
}

impl PartialEq for Matrix {
    /// Value equality: the same shape and the same number in every
    /// entry, whatever the representations.
    fn eq(&self, other: &Matrix) -> (r: bool) {
        if self.rows.len() != other.rows.len() {
            return false;
        }
        let n: usize = self.rows.len();
        let mut i: usize = 0;
        while i < n
            invariant
                n == self@.len() == other@.len(),
                i <= n,
                forall|j: int| 0 <= j < i ==> vec_eq(#[trigger] self@[j], #[trigger] other@[j]),
            decreases n - i,
        {
            if !(self.rows[i] == other.rows[i]) {
                proof {
                    assert(!vec_eq(self@[i as int], other@[i as int]));
                }
                return false;
            }
            i = i + 1;
        }
        true
    }
}

impl vstd::std_specs::cmp::PartialEqSpecImpl for Matrix {
    open spec fn obeys_eq_spec() -> bool {
        true
    }

    open spec fn eq_spec(&self, other: &Matrix) -> bool {
        mat_eq(self@, other@)
    }
}

/// Multiplying an `r` by `c` matrix by the `c` by `c` identity on the
/// right changes nothing: every product entry equals the original entry.
pub proof fn lemma_mul_identity_right(m: Seq<Seq<RatV>>, r: int, c: int)
    requires
        is_matrix(m, r, c),
        mat_wf(m),
        c >= 1,
    ensures
        forall|i: int, j: int|
            0 <= i < r && 0 <= j < c ==> rat_eq(#[trigger] mul_entry(m, ident_v(c), i, j), m[i][j]),
{
    assert forall|i: int, j: int| 0 <= i < r && 0 <= j < c implies rat_eq(
        #[trigger] mul_entry(m, ident_v(c), i, j),
        m[i][j],
    ) by {
        assert(col_v(ident_v(c), j) =~= unit_v(c, j));
        lemma_dot_unit(m[i], j);
    }
}

/// Multiplying an `r` by `c` matrix by the `r` by `r` identity on the
/// left changes nothing.
pub proof fn lemma_mul_identity_left(m: Seq<Seq<RatV>>, r: int, c: int)
    requires
        is_matrix(m, r, c),
        mat_wf(m),
        r >= 1,
    ensures
        forall|i: int, j: int|
            0 <= i < r && 0 <= j < c ==> rat_eq(#[trigger] mul_entry(ident_v(r), m, i, j), m[i][j]),
{
    assert forall|i: int, j: int| 0 <= i < r && 0 <= j < c implies rat_eq(
        #[trigger] mul_entry(ident_v(r), m, i, j),
        m[i][j],
    ) by {
        let col = col_v(m, j);
        assert(ident_v(r)[i] =~= unit_v(r, i));
        assert(seq_wf(col));
        assert(seq_wf(unit_v(r, i)));
        lemma_dot_comm(unit_v(r, i), col);
        lemma_dot_unit(col, i);
        lemma_dot_wf(col, unit_v(r, i));
        lemma_rat_eq_trans(dot_v(unit_v(r, i), col), dot_v(col, unit_v(r, i)), col[i]);
    }
}

/// A square matrix with two equal rows has no right inverse: whatever
/// `b` is, `m * b` is not the identity. Together with the contract of
/// `invert`, inverting such a matrix always answers `None`.
pub proof fn lemma_duplicate_rows_not_invertible(m: Seq<Seq<RatV>>, n: int, i: int, j: int)
    requires
        is_matrix(m, n, n),
        mat_wf(m),
        0 <= i < n,
        0 <= j < n,
        i != j,
        vec_eq(m[i], m[j]),
    ensures
        forall|b: Seq<Seq<RatV>>|
            is_matrix(b, n, n) && mat_wf(b) ==> !mul_is_ident(m, b, n),
{
    assert forall|b: Seq<Seq<RatV>>|
        is_matrix(b, n, n) && mat_wf(b) implies !mul_is_ident(m, b, n) by {
        if mul_is_ident(m, b, n) {
            let col = col_v(b, i);
            let x = dot_v(m[i], col);
            let y = dot_v(m[j], col);
            assert(rat_eq(mul_entry(m, b, i, i), ident_entry(i, i)));
            assert(rat_eq(mul_entry(m, b, j, i), ident_entry(j, i)));
            assert(x == mul_entry(m, b, i, i));
            assert(y == mul_entry(m, b, j, i));
            assert(seq_wf(col));
            lemma_dot_cong_first(m[i], m[j], col);
            lemma_dot_wf(m[i], col);
            lemma_dot_wf(m[j], col);
            lemma_rat_eq_sym(x, rat_int(1));
            lemma_rat_eq_trans(rat_int(1), x, y);
            lemma_rat_eq_trans(rat_int(1), y, rat_int(0));
            assert(false);
        }
    }
}

/// A dot product of row-times-column products can be regrouped: dotting
/// the vector of `u`-against-columns-of-`b` with `w` equals dotting `u`
/// with the vector of rows-of-`b`-against-`w`. This is associativity of
/// matrix multiplication, one entry at a time.
pub proof fn lemma_dot_through_grid(u: Seq<RatV>, b: Seq<Seq<RatV>>, w: Seq<RatV>)
    requires
        u.len() == b.len(),
        forall|l: int| 0 <= l < b.len() ==> (#[trigger] b[l]).len() == w.len(),
        seq_wf(u),
        mat_wf(b),
        seq_wf(w),
    ensures
        rat_eq(
            dot_v(Seq::new(w.len(), |k: int| dot_v(u, col_v(b, k))), w),
            dot_v(u, Seq::new(b.len(), |l: int| dot_v(b[l], w))),
        ),
    decreases u.len(),
{
    let lhsv = Seq::new(w.len(), |k: int| dot_v(u, col_v(b, k)));
    let rhsv = Seq::new(b.len(), |l: int| dot_v(b[l], w));
    if u.len() == 0 {
        let ghost zv = Seq::new(w.len(), |k: int| rat_int(0));
        assert(lhsv =~= zv);
        assert(seq_wf(zv));
        lemma_dot_comm(zv, w);
        lemma_dot_zero(w, zv);
        lemma_dot_wf(w, zv);
        lemma_rat_eq_trans(dot_v(zv, w), dot_v(w, zv), rat_int(0));
        assert(dot_v(u, rhsv) == rat_int(0));
        lemma_rat_eq_sym(dot_v(u, rhsv), rat_int(0));
        lemma_rat_eq_trans(dot_v(lhsv, w), rat_int(0), dot_v(u, rhsv));
    } else {
        let u2 = u.drop_last();
        let b2 = b.drop_last();
        let ul = u.last();
        let brow = b.last();
        assert(seq_wf(u2) && mat_wf(b2));
        assert(forall|l: int| 0 <= l < b2.len() ==> (#[trigger] b2[l]).len() == w.len());
        lemma_dot_through_grid(u2, b2, w);
        let pv = Seq::new(w.len(), |k: int| dot_v(u2, col_v(b2, k)));
        let mv = Seq::new(w.len(), |k: int| rat_mul(ul, brow[k]));
        assert forall|k: int| 0 <= k < w.len() implies #[trigger] lhsv[k] == rat_add(
            pv[k],
            mv[k],
        ) by {
            assert(col_v(b, k).drop_last() =~= col_v(b2, k));
            assert(col_v(b, k).last() == brow[k]);
        }
        assert(lhsv =~= seq_add(pv, mv));
        assert(seq_wf(pv)) by {
            assert forall|k: int| 0 <= k < pv.len() implies rat_wf(#[trigger] pv[k]) by {
                assert(seq_wf(col_v(b2, k)));
                lemma_dot_wf(u2, col_v(b2, k));
            }
        }
        assert(seq_wf(mv)) by {
            assert forall|k: int| 0 <= k < mv.len() implies rat_wf(#[trigger] mv[k]) by {
                assert(rat_wf(brow[k]));
                assert(rat_wf(rat_mul(ul, brow[k]))) by (nonlinear_arith)
                    requires
                        rat_wf(ul),
                        rat_wf(brow[k]),
                ;
            }
        }
        lemma_dot_add_left(pv, mv, w);
        assert(mv =~= seq_scale(ul, brow));
        assert(seq_wf(brow));
        lemma_dot_scale_left(ul, brow, w);
        lemma_rat_add_cong(
            dot_v(pv, w),
            dot_v(u2, Seq::new(b2.len(), |l: int| dot_v(b2[l], w))),
            dot_v(mv, w),
            rat_mul(ul, dot_v(brow, w)),
        );
        assert(rhsv.drop_last() =~= Seq::new(b2.len(), |l: int| dot_v(b2[l], w)));
        assert(rhsv.last() == dot_v(brow, w));
        assert(dot_v(u, rhsv) == rat_add(
            dot_v(u2, Seq::new(b2.len(), |l: int| dot_v(b2[l], w))),
            rat_mul(ul, dot_v(brow, w)),
        ));
        lemma_dot_wf(pv, w);
        lemma_dot_wf(mv, w);
        let mid = rat_add(dot_v(pv, w), dot_v(mv, w));
        assert(rat_wf(mid)) by (nonlinear_arith)
            requires
                rat_wf(dot_v(pv, w)),
                rat_wf(dot_v(mv, w)),
                mid == rat_add(dot_v(pv, w), dot_v(mv, w)),
        ;
        lemma_rat_eq_trans(dot_v(lhsv, w), mid, dot_v(u, rhsv));
    }
}

/// A two-sided inverse of a two-sided inverse is the original matrix:
/// inverting twice gives back what was inverted, entry for entry. With
/// the contract of `invert`, a doubly inverted matrix denotes the
/// matrix it came from.
pub proof fn lemma_double_inverse(m: Seq<Seq<RatV>>, mid: Seq<Seq<RatV>>, p: Seq<Seq<RatV>>, n: int)
    requires
        n >= 1,
        is_matrix(m, n, n),
        is_matrix(mid, n, n),
        is_matrix(p, n, n),
        mat_wf(m),
        mat_wf(mid),
        mat_wf(p),
        mul_is_ident(m, mid, n),
        mul_is_ident(mid, p, n),
    ensures
        mat_eq(p, m),
{
    assert forall|i: int, j: int| 0 <= i < n && 0 <= j < n implies rat_eq(p[i][j], m[i][j]) by {
        let q = col_v(p, j);
        assert(seq_wf(q));
        // the identity row picks out the entry of p
        lemma_mul_identity_left(p, n, n);
        lemma_rat_eq_sym(mul_entry(ident_v(n), p, i, j), p[i][j]);
        // replace the identity row by the corresponding row of m * mid
        let mg_row = Seq::new(n as nat, |k: int| mul_entry(m, mid, i, k));
        assert(vec_eq(mg_row, ident_v(n)[i])) by {
            assert forall|k: int| 0 <= k < n implies rat_eq(
                #[trigger] mg_row[k],
                ident_v(n)[i][k],
            ) by {
                assert(rat_eq(mul_entry(m, mid, i, k), ident_entry(i, k)));
            }
        }
        lemma_dot_cong_first(mg_row, ident_v(n)[i], q);
        lemma_rat_eq_sym(dot_v(mg_row, q), dot_v(ident_v(n)[i], q));
        // regroup (m * mid) * p into m * (mid * p)
        assert(mg_row =~= Seq::new(q.len(), |k: int| dot_v(m[i], col_v(mid, k))));
        lemma_dot_through_grid(m[i], mid, q);
        // rows of mid against the column of p denote the identity column
        let inner = Seq::new(mid.len(), |l: int| dot_v(mid[l], q));
        assert(vec_eq(inner, unit_v(n, j))) by {
            assert forall|k: int| 0 <= k < n implies rat_eq(
                #[trigger] inner[k],
                unit_v(n, j)[k],
            ) by {
                assert(rat_eq(mul_entry(mid, p, k, j), ident_entry(k, j)));
                assert(inner[k] == mul_entry(mid, p, k, j));
            }
        }
        lemma_dot_cong_second(m[i], inner, unit_v(n, j));
        lemma_dot_unit(m[i], j);
        // chain everything together
        assert(seq_wf(ident_v(n)[i])) by {
            assert forall|k: int| 0 <= k < n implies rat_wf(#[trigger] ident_v(n)[i][k]) by {
                assert(ident_v(n)[i][k] == ident_entry(i, k));
            }
        }
        lemma_dot_wf(ident_v(n)[i], q);
        assert(seq_wf(mg_row)) by {
            assert forall|k: int| 0 <= k < n implies rat_wf(#[trigger] mg_row[k]) by {
                assert(seq_wf(col_v(mid, k)));
                lemma_dot_wf(m[i], col_v(mid, k));
            }
        }
        lemma_dot_wf(mg_row, q);
        assert(seq_wf(inner)) by {
            assert forall|k: int| 0 <= k < n implies rat_wf(#[trigger] inner[k]) by {
                lemma_dot_wf(mid[k], q);
            }
        }
        lemma_dot_wf(m[i], inner);
        lemma_rat_eq_trans(p[i][j], dot_v(ident_v(n)[i], q), dot_v(mg_row, q));
        lemma_rat_eq_trans(p[i][j], dot_v(mg_row, q), dot_v(m[i], inner));
        lemma_rat_eq_trans(p[i][j], dot_v(m[i], inner), dot_v(m[i], unit_v(n, j)));
        assert(seq_wf(unit_v(n, j)));
        lemma_dot_wf(m[i], unit_v(n, j));
        lemma_rat_eq_trans(p[i][j], dot_v(m[i], unit_v(n, j)), m[i][j]);
    }
    assert forall|i: int| 0 <= i < n implies vec_eq(#[trigger] p[i], #[trigger] m[i]) by {
    }
}

} // verus!
