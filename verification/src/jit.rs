//! Deferred entry-wise expressions over matrices, evaluated in one fused
//! pass into a destination matrix.

use crate::matrix::Matrix;
use crate::scalar::Scalar;
use vstd::prelude::*;

verus! {

/// An expression tree of entry-wise operations on matrices.
pub enum Expr<'a, T: Scalar> {
    /// A leaf referencing an existing matrix.
    MatrixRef(&'a Matrix<T>),
    /// Entry-wise `A + B`.
    Add(Box<Expr<'a, T>>, Box<Expr<'a, T>>),
    /// Entry-wise `A - B`.
    Sub(Box<Expr<'a, T>>, Box<Expr<'a, T>>),
    /// Entry-wise `A .* B`.
    MulWise(Box<Expr<'a, T>>, Box<Expr<'a, T>>),
    /// `A * scalar`.
    MulScalar(Box<Expr<'a, T>>, T),
}

impl<'a, T: Scalar> Expr<'a, T> {
    /// The shape of the expression: that of its left-most leaf.
    pub open spec fn spec_dims(&self) -> (nat, nat)
        decreases self,
    {
        match self {
            Expr::MatrixRef(m) => (m.nrows(), m.ncols()),
            Expr::Add(l, _) => l.spec_dims(),
            Expr::Sub(l, _) => l.spec_dims(),
            Expr::MulWise(l, _) => l.spec_dims(),
            Expr::MulScalar(l, _) => l.spec_dims(),
        }
    }

    /// Every leaf is a well-formed `rows x cols` matrix.
    pub open spec fn shaped(&self, rows: nat, cols: nat) -> bool
        decreases self,
    {
        match self {
            Expr::MatrixRef(m) => m.wf() && m.nrows() == rows && m.ncols() == cols,
            Expr::Add(l, r) => l.shaped(rows, cols) && r.shaped(rows, cols),
            Expr::Sub(l, r) => l.shaped(rows, cols) && r.shaped(rows, cols),
            Expr::MulWise(l, r) => l.shaped(rows, cols) && r.shaped(rows, cols),
            Expr::MulScalar(l, _) => l.shaped(rows, cols),
        }
    }

    /// All leaves are well formed and share one shape.
    pub open spec fn consistent(&self) -> bool {
        self.shaped(self.spec_dims().0, self.spec_dims().1)
    }

    /// The value of the expression at entry `(i, j)`.
    pub open spec fn eval(&self, i: int, j: int) -> T
        decreases self,
    {
        match self {
            Expr::MatrixRef(m) => m.at(i, j),
            Expr::Add(l, r) => l.eval(i, j).spec_plus(r.eval(i, j)),
            Expr::Sub(l, r) => l.eval(i, j).spec_minus(r.eval(i, j)),
            Expr::MulWise(l, r) => l.eval(i, j).spec_times(r.eval(i, j)),
            Expr::MulScalar(l, s) => l.eval(i, j).spec_times(*s),
        }
    }

    /// A tree whose leaves all have one shape has that shape.
    proof fn lemma_shaped_dims(&self, rows: nat, cols: nat)
        requires
            self.shaped(rows, cols),
        ensures
            self.spec_dims() == (rows, cols),
        decreases self,
    {
        match self {
            Expr::MatrixRef(_) => {},
            Expr::Add(l, _) => l.lemma_shaped_dims(rows, cols),
            Expr::Sub(l, _) => l.lemma_shaped_dims(rows, cols),
            Expr::MulWise(l, _) => l.lemma_shaped_dims(rows, cols),
            Expr::MulScalar(l, _) => l.lemma_shaped_dims(rows, cols),
        }
    }

    /// Returns the dimensions `(rows, cols)` of the expression.
    pub fn dimensions(&self) -> (r: (usize, usize))
        ensures
            r.0 == self.spec_dims().0,
            r.1 == self.spec_dims().1,
        decreases self,
    {
        match self {
            Expr::MatrixRef(m) => (m.rows(), m.cols()),
            Expr::Add(l, _) => l.dimensions(),
            Expr::Sub(l, _) => l.dimensions(),
            Expr::MulWise(l, _) => l.dimensions(),
            Expr::MulScalar(l, _) => l.dimensions(),
        }
    }

    /// Evaluates the expression at entry `(r, c)`.
    fn eval_at(&self, r: usize, c: usize, rows: Ghost<nat>, cols: Ghost<nat>) -> (v: T)
        requires
            self.shaped(rows@, cols@),
            r < rows@,
            c < cols@,
        ensures
            v == self.eval(r as int, c as int),
        decreases self,
    {
        match self {
            Expr::MatrixRef(m) => m.entry(r, c),
            Expr::Add(l, rr) => l.eval_at(r, c, rows, cols).plus(rr.eval_at(r, c, rows, cols)),
            Expr::Sub(l, rr) => l.eval_at(r, c, rows, cols).minus(rr.eval_at(r, c, rows, cols)),
            Expr::MulWise(l, rr) => l.eval_at(r, c, rows, cols).times(rr.eval_at(r, c, rows, cols)),
            Expr::MulScalar(l, s) => l.eval_at(r, c, rows, cols).times(*s),
        }
    }

    /// Evaluates the expression into `out` in one pass; fails (changing
    /// nothing) when `out` does not have the shape of the expression.
    pub fn execute_into(&self, out: &mut Matrix<T>) -> (res: Result<(), String>)
        requires
            self.consistent(),
            old(out).wf(),
        ensures
            res is Ok <==> (old(out).nrows(), old(out).ncols()) == self.spec_dims(),
            final(out).wf(),
            final(out).same_shape(old(out)),
            res is Err ==> final(out).elems() == old(out).elems(),
            res is Ok ==> forall|i: int, j: int| #[trigger]
                final(out).in_bounds(i, j) ==> final(out).at(i, j) == self.eval(i, j),
            res matches Err(e) ==> e@ == "Destination matrix dimension mismatch against AST expression"@,
    {
        let (expr_rows, expr_cols) = self.dimensions();
        if out.rows() != expr_rows || out.cols() != expr_cols {
            return Err("Destination matrix dimension mismatch against AST expression".to_string());
        }
        let ghost rows = expr_rows as nat;
        let ghost cols = expr_cols as nat;
        let mut c: usize = 0;
        while c < expr_cols
            invariant
                self.shaped(rows, cols),
                rows == expr_rows,
                cols == expr_cols,
                out.wf(),
                out.nrows() == rows,
                out.ncols() == cols,
                c <= expr_cols,
                forall|i: int, j: int| #[trigger]
                    out.in_bounds(i, j) ==> out.at(i, j) == if j < c {
                        self.eval(i, j)
                    } else {
                        old(out).at(i, j)
                    },
            decreases expr_cols - c,
        {
            let mut r: usize = 0;
            while r < expr_rows
                invariant
                    self.shaped(rows, cols),
                    rows == expr_rows,
                    cols == expr_cols,
                    out.wf(),
                    out.nrows() == rows,
                    out.ncols() == cols,
                    c < expr_cols,
                    r <= expr_rows,
                    forall|i: int, j: int| #[trigger]
                        out.in_bounds(i, j) ==> out.at(i, j) == if j < c || (j == c && i < r) {
                            self.eval(i, j)
                        } else {
                            old(out).at(i, j)
                        },
                decreases expr_rows - r,
            {
                let v = self.eval_at(r, c, Ghost(rows), Ghost(cols));
                let ghost prev = *out;
                out.set(r, c, v);
                proof {
                    assert forall|i: int, j: int| #[trigger] out.in_bounds(i, j) implies out.at(i, j)
                        == if j < c || (j == c && i < r + 1) {
                        self.eval(i, j)
                    } else {
                        old(out).at(i, j)
                    } by {
                        assert(prev.in_bounds(i, j));
                    }
                }
                r = r + 1;
            }
            c = c + 1;
        }
        Ok(())
    }

    /// Allocates a matrix of the expression's shape and evaluates the
    /// expression into it.
    pub fn execute(&self) -> (m: Matrix<T>)
        requires
            self.consistent(),
        ensures
            m.wf(),
            (m.nrows(), m.ncols()) == self.spec_dims(),
            forall|i: int, j: int| #[trigger] m.in_bounds(i, j) ==> m.at(i, j) == self.eval(i, j),
    {
        let (rows, cols) = self.dimensions();
        let first = self.first_leaf();
        let _len = first.size();
        let mut out = Matrix::<T>::zeros(rows, cols);
        let _ = self.execute_into(&mut out);
        out
    }

    /// The left-most leaf matrix.
    fn first_leaf(&self) -> (m: &Matrix<T>)
        requires
            self.consistent(),
        ensures
            m.wf(),
            (m.nrows(), m.ncols()) == self.spec_dims(),
        decreases self,
    {
        match self {
            Expr::MatrixRef(m) => m,
            Expr::Add(l, _) => {
                proof {
                    l.lemma_shaped_dims(self.spec_dims().0, self.spec_dims().1);
                }
                l.first_leaf()
            },
            Expr::Sub(l, _) => {
                proof {
                    l.lemma_shaped_dims(self.spec_dims().0, self.spec_dims().1);
                }
                l.first_leaf()
            },
            Expr::MulWise(l, _) => {
                proof {
                    l.lemma_shaped_dims(self.spec_dims().0, self.spec_dims().1);
                }
                l.first_leaf()
            },
            Expr::MulScalar(l, _) => {
                proof {
                    l.lemma_shaped_dims(self.spec_dims().0, self.spec_dims().1);
                }
                l.first_leaf()
            },
        }
    }
}

} // verus!
