//! Dense matrices stored in column-major order.

use crate::scalar::Scalar;
use vstd::prelude::*;

verus! {

/// A matrix meant to hold `2 x 2` entries; the shape is a property of the
/// value, given when it is created.
pub type Matrix2<T> = Matrix<T>;

/// A matrix meant to hold `3 x 3` entries.
pub type Matrix3<T> = Matrix<T>;

/// A matrix meant to hold `4 x 4` entries.
pub type Matrix4<T> = Matrix<T>;

/// A column meant to hold `3` entries.
pub type Vector3<T> = Matrix<T>;

/// A column meant to hold `4` entries.
pub type Vector4<T> = Matrix<T>;

/// A matrix of any shape.
pub type MatrixX<T> = Matrix<T>;

/// A column of any length.
pub type VectorX<T> = Matrix<T>;

/// A dense `rows x cols` matrix; entry `(i, j)` is stored at `j * rows + i`.
pub struct Matrix<T> {
    rows: usize,
    cols: usize,
    data: Vec<T>,
}

// ---------------------------------------------------------------------------
// Column-major index arithmetic
// ---------------------------------------------------------------------------

/// The storage index of entry `(i, j)` lies inside the storage and maps back
/// to `(i, j)`.
pub proof fn lemma_cm_index(i: int, j: int, r: int, c: int)
    requires
        0 <= i < r,
        0 <= j < c,
    ensures
        0 <= j * r + i < r * c,
        (j * r + i) % r == i,
        (j * r + i) / r == j,
{
    assert(0 <= j * r + i < r * c) by (nonlinear_arith)
        requires
            0 <= i < r,
            0 <= j < c,
    ;
    vstd::arithmetic::div_mod::lemma_fundamental_div_mod_converse(j * r + i, r, j, i);
}

/// Every storage index is the index of exactly one entry.
pub proof fn lemma_cm_split(k: int, r: int, c: int)
    requires
        0 <= k < r * c,
        r >= 0,
        c >= 0,
    ensures
        r > 0,
        0 <= k % r < r,
        0 <= k / r < c,
        k == (k / r) * r + k % r,
{
    assert(r > 0) by (nonlinear_arith)
        requires
            0 <= k < r * c,
            r >= 0,
            c >= 0,
    ;
    vstd::arithmetic::div_mod::lemma_fundamental_div_mod(k, r);
    vstd::arithmetic::div_mod::lemma_mod_bound(k, r);
    vstd::arithmetic::div_mod::lemma_div_pos_is_pos(k, r);
    assert(k / r < c) by (nonlinear_arith)
        requires
            k == r * (k / r) + k % r,
            0 <= k % r,
            k < r * c,
            r > 0,
    ;
    vstd::arithmetic::mul::lemma_mul_is_commutative(r, k / r);
}

/// A sequence whose entry `k` is `f(k % r, k / r)` holds `f(i, j)` at the
/// storage index of `(i, j)`.
pub proof fn lemma_cm_seq<T>(s: Seq<T>, r: int, c: int, f: spec_fn(int, int) -> T)
    requires
        r >= 0,
        c >= 0,
        s.len() == r * c,
        forall|k: int| 0 <= k < r * c ==> #[trigger] s[k] == f(k % r, k / r),
    ensures
        forall|i: int, j: int| 0 <= i < r && 0 <= j < c ==> #[trigger] s[j * r + i] == f(i, j),
{
    assert forall|i: int, j: int| 0 <= i < r && 0 <= j < c implies #[trigger] s[j * r + i] == f(
        i,
        j,
    ) by {
        lemma_cm_index(i, j, r, c);
    }
}

/// `sum_{k < n} a[k] * b[k]`, accumulated from `k = 0` upwards starting
/// at zero.
pub open spec fn dot_upto<T: Scalar>(a: Seq<T>, b: Seq<T>, n: nat) -> T
    decreases n,
{
    if n == 0 {
        T::spec_zero()
    } else {
        dot_upto(a, b, (n - 1) as nat).spec_plus(a[n - 1].spec_times(b[n - 1]))
    }
}

/// `sum_{k < n} a(i, k) * b(k, j)`, accumulated from `k = 0` upwards
/// starting at zero.
pub open spec fn product_entry<T: Scalar>(a: Matrix<T>, b: Matrix<T>, i: int, j: int, n: nat) -> T
    decreases n,
{
    if n == 0 {
        T::spec_zero()
    } else {
        product_entry(a, b, i, j, (n - 1) as nat).spec_plus(
            a.at(i, n - 1).spec_times(b.at(n - 1, j)),
        )
    }
}

/// `sum_{k < n} a(i, k) * b(k, j)` for matrices given by entry functions,
/// accumulated from `k = 0` upwards starting at zero.
pub open spec fn product_of<T: Scalar>(
    a: spec_fn(int, int) -> T,
    b: spec_fn(int, int) -> T,
    i: int,
    j: int,
    n: nat,
) -> T
    decreases n,
{
    if n == 0 {
        T::spec_zero()
    } else {
        product_of(a, b, i, j, (n - 1) as nat).spec_plus(a(i, n - 1).spec_times(b(n - 1, j)))
    }
}

/// A product entry depends only on the entries of the factors.
pub proof fn lemma_product_entry_of<T: Scalar>(
    a: Matrix<T>,
    b: Matrix<T>,
    fa: spec_fn(int, int) -> T,
    fb: spec_fn(int, int) -> T,
    i: int,
    j: int,
    n: nat,
)
    requires
        forall|k: int| 0 <= k < n ==> #[trigger] a.at(i, k) == fa(i, k),
        forall|k: int| 0 <= k < n ==> #[trigger] b.at(k, j) == fb(k, j),
    ensures
        product_entry(a, b, i, j, n) == product_of(fa, fb, i, j, n),
    decreases n,
{
    if n > 0 {
        lemma_product_entry_of(a, b, fa, fb, i, j, (n - 1) as nat);
        assert(a.at(i, n - 1) == fa(i, n - 1));
        assert(b.at(n - 1, j) == fb(n - 1, j));
    }
}

/// The cross product of two 3-vectors given by their coordinates.
pub open spec fn cross3<T: Scalar>(a: Seq<T>, b: Seq<T>) -> Seq<T> {
    seq![
        a[1].spec_times(b[2]).spec_minus(a[2].spec_times(b[1])),
        a[2].spec_times(b[0]).spec_minus(a[0].spec_times(b[2])),
        a[0].spec_times(b[1]).spec_minus(a[1].spec_times(b[0])),
    ]
}

/// A sub-rectangle of a matrix has no more entries than the matrix.
proof fn lemma_sub_size(r: int, c: int, rr: int, cc: int)
    requires
        0 <= r <= rr,
        0 <= c <= cc,
    ensures
        r * c <= rr * cc,
{
    assert(r * c <= rr * cc) by (nonlinear_arith)
        requires
            0 <= r <= rr,
            0 <= c <= cc,
    ;
}

/// The entry-wise functions a matrix can be mapped through.
#[derive(Clone, Copy)]
enum UnaryFn {
    Sin,
    Cos,
    Exp,
    Ln,
}

spec fn unary_spec<T: Scalar>(f: UnaryFn, x: T) -> T {
    match f {
        UnaryFn::Sin => x.spec_sin(),
        UnaryFn::Cos => x.spec_cos(),
        UnaryFn::Exp => x.spec_exp(),
        UnaryFn::Ln => x.spec_ln(),
    }
}

spec fn unary_available<T: Scalar>(f: UnaryFn) -> bool {
    match f {
        UnaryFn::Sin | UnaryFn::Cos => T::spec_has_trig(),
        UnaryFn::Exp | UnaryFn::Ln => T::spec_has_exp_ln(),
    }
}

fn apply_unary<T: Scalar>(f: UnaryFn, x: T) -> (r: T)
    requires
        unary_available::<T>(f),
    ensures
        r == unary_spec(f, x),
{
    match f {
        UnaryFn::Sin => x.sin(),
        UnaryFn::Cos => x.cos(),
        UnaryFn::Exp => x.exp(),
        UnaryFn::Ln => x.ln(),
    }
}

/// A mutable reference to position `i` of `v`: what is written through it
/// becomes that position of `v`.
fn slot_mut<T>(v: &mut Vec<T>, i: usize) -> (e: &mut T)
    requires
        i < old(v).len(),
    ensures
        *e == old(v)@[i as int],
        final(v)@ == old(v)@.update(i as int, *final(e)),
{
    &mut v[i]
}

impl<T> Matrix<T> {
    /// Number of rows.
    pub closed spec fn nrows(&self) -> nat {
        self.rows as nat
    }

    /// Number of columns.
    pub closed spec fn ncols(&self) -> nat {
        self.cols as nat
    }

    /// The entries in column-major order.
    pub closed spec fn elems(&self) -> Seq<T> {
        self.data@
    }

    /// The dimensions are `usize` values.
    pub proof fn lemma_dims_fit(&self)
        ensures
            self.nrows() <= usize::MAX,
            self.ncols() <= usize::MAX,
    {
    }

    /// The storage holds exactly `rows * cols` entries.
    pub open spec fn wf(&self) -> bool {
        self.elems().len() == self.nrows() * self.ncols()
    }

    /// Entry `(i, j)`.
    pub open spec fn at(&self, i: int, j: int) -> T {
        self.elems()[j * self.nrows() + i]
    }

    /// Both matrices have the same number of rows and of columns.
    pub open spec fn same_shape<U>(&self, other: &Matrix<U>) -> bool {
        self.nrows() == other.nrows() && self.ncols() == other.ncols()
    }

    /// `(i, j)` is a position inside the matrix.
    pub open spec fn in_bounds(&self, i: int, j: int) -> bool {
        0 <= i < self.nrows() && 0 <= j < self.ncols()
    }

    /// Number of rows.
    pub fn rows(&self) -> (r: usize)
        ensures
            r == self.nrows(),
    {
        self.rows
    }

    /// Number of columns.
    pub fn cols(&self) -> (r: usize)
        ensures
            r == self.ncols(),
    {
        self.cols
    }

    /// Number of entries, `rows * cols`.
    pub fn size(&self) -> (r: usize)
        requires
            self.wf(),
        ensures
            r == self.nrows() * self.ncols(),
    {
        self.data.len()
    }

    /// Gives up the matrix, returning its entries in column-major order.
    pub fn into_data(self) -> (r: Vec<T>)
        ensures
            r@ == self.elems(),
    {
        self.data
    }

    /// The entries in column-major order.
    pub fn data(&self) -> (r: &Vec<T>)
        ensures
            r@ == self.elems(),
    {
        &self.data
    }
}

impl<T: Scalar> Matrix<T> {
    /// A `rows x cols` matrix with every entry equal to `val`.
    fn filled(rows: usize, cols: usize, val: T) -> (m: Self)
        requires
            rows * cols <= usize::MAX,
        ensures
            m.wf(),
            m.nrows() == rows,
            m.ncols() == cols,
            forall|k: int| 0 <= k < m.elems().len() ==> #[trigger] m.elems()[k] == val,
    {
        let n = rows * cols;
        let mut data: Vec<T> = Vec::new();
        let mut k: usize = 0;
        while k < n
            invariant
                k <= n,
                data@.len() == k,
                forall|q: int| 0 <= q < k ==> #[trigger] data@[q] == val,
            decreases n - k,
        {
            data.push(val);
            k = k + 1;
        }
        Matrix { rows, cols, data }
    }

    /// A `rows x cols` matrix of zeros; fails when `rows * cols` does not fit
    /// in `usize`.
    pub fn new_dynamic(rows: usize, cols: usize) -> (r: Result<Self, String>)
        ensures
            r is Ok <==> rows * cols <= usize::MAX,
            r matches Ok(m) ==> {
                &&& m.wf()
                &&& m.nrows() == rows
                &&& m.ncols() == cols
                &&& forall|i: int, j: int| #[trigger]
                    m.in_bounds(i, j) ==> m.at(i, j) == T::spec_zero()
            },
            r matches Err(e) ==> e@ == "Matrix dimensions overflow"@,
    {
        match rows.checked_mul(cols) {
            None => Err("Matrix dimensions overflow".to_string()),
            Some(_) => {
                let m = Self::filled(rows, cols, T::zero());
                proof {
                    assert forall|i: int, j: int| #[trigger] m.in_bounds(i, j) implies m.at(i, j)
                        == T::spec_zero() by {
                        lemma_cm_index(i, j, rows as int, cols as int);
                    }
                }
                Ok(m)
            },
        }
    }

    /// A `rows x cols` matrix of zeros.
    pub fn zeros(rows: usize, cols: usize) -> (m: Self)
        requires
            rows * cols <= usize::MAX,
        ensures
            m.wf(),
            m.nrows() == rows,
            m.ncols() == cols,
            forall|i: int, j: int| #[trigger] m.in_bounds(i, j) ==> m.at(i, j) == T::spec_zero(),
    {
        let m = Self::filled(rows, cols, T::zero());
        proof {
            assert forall|i: int, j: int| #[trigger] m.in_bounds(i, j) implies m.at(i, j)
                == T::spec_zero() by {
                lemma_cm_index(i, j, rows as int, cols as int);
            }
        }
        m
    }

    /// A `rows x cols` matrix of zeros (a fixed-size matrix has its shape
    /// known to the caller).
    pub fn new_fixed(rows: usize, cols: usize) -> (m: Self)
        requires
            rows * cols <= usize::MAX,
        ensures
            m.wf(),
            m.nrows() == rows,
            m.ncols() == cols,
            forall|i: int, j: int| #[trigger] m.in_bounds(i, j) ==> m.at(i, j) == T::spec_zero(),
    {
        Self::zeros(rows, cols)
    }

    /// The `rows x cols` matrix whose column-major entries are `vec`; fails
    /// when `vec` does not have `rows * cols` entries.
    pub fn from_vec(rows: usize, cols: usize, vec: Vec<T>) -> (r: Result<Self, String>)
        ensures
            r is Ok <==> vec@.len() == rows * cols,
            r matches Ok(m) ==> {
                &&& m.wf()
                &&& m.nrows() == rows
                &&& m.ncols() == cols
                &&& m.elems() == vec@
            },
            r matches Err(e) ==> e@ == "Data length does not match matrix dimensions"@,
    {
        let len = vec.len();
        match rows.checked_mul(cols) {
            None => Err("Data length does not match matrix dimensions".to_string()),
            Some(n) => {
                if len == n {
                    Ok(Matrix { rows, cols, data: vec })
                } else {
                    Err("Data length does not match matrix dimensions".to_string())
                }
            },
        }
    }

    /// Entry `(row, col)`, or `None` outside the matrix.
    pub fn get(&self, row: usize, col: usize) -> (r: Option<&T>)
        requires
            self.wf(),
        ensures
            r is Some <==> self.in_bounds(row as int, col as int),
            r matches Some(v) ==> *v == self.at(row as int, col as int),
    {
        if row < self.rows && col < self.cols {
            proof {
                lemma_cm_index(row as int, col as int, self.rows as int, self.cols as int);
            }
            let _n = self.data.len();
            let index = col * self.rows + row;
            Some(&self.data[index])
        } else {
            None
        }
    }

    /// Entry `(row, col)` of an in-bounds position.
    pub fn entry(&self, row: usize, col: usize) -> (r: T)
        requires
            self.wf(),
            self.in_bounds(row as int, col as int),
        ensures
            r == self.at(row as int, col as int),
    {
        proof {
            lemma_cm_index(row as int, col as int, self.rows as int, self.cols as int);
        }
        let _n = self.data.len();
        self.data[col * self.rows + row]
    }

    /// A mutable reference to entry `(row, col)`, or `None` outside the
    /// matrix (nothing changes then). Whatever is written through the
    /// reference becomes that entry, at position `col * rows + row` of the
    /// column-major entries; every other entry keeps its value.
    pub fn get_mut(&mut self, row: usize, col: usize) -> (r: Option<&mut T>)
        requires
            old(self).wf(),
        ensures
            r is Some <==> old(self).in_bounds(row as int, col as int),
            r is None ==> *final(self) == *old(self),
            r is Some ==> {
                &&& *r->0 == old(self).at(row as int, col as int)
                &&& final(self).wf()
                &&& final(self).same_shape(old(self))
                &&& final(self).elems() == old(self).elems().update(
                    col * old(self).nrows() + row,
                    *final(r->0),
                )
            },
    {
        if row < self.rows && col < self.cols {
            proof {
                lemma_cm_index(row as int, col as int, self.rows as int, self.cols as int);
            }
            let _n = self.data.len();
            let index = col * self.rows + row;
            Some(slot_mut(&mut self.data, index))
        } else {
            None
        }
    }

    /// Overwrites entry `(row, col)` with `val`; returns whether the position
    /// was inside the matrix (nothing changes otherwise).
    pub fn set(&mut self, row: usize, col: usize, val: T) -> (r: bool)
        requires
            old(self).wf(),
        ensures
            r == old(self).in_bounds(row as int, col as int),
            final(self).wf(),
            final(self).same_shape(old(self)),
            forall|i: int, j: int| #[trigger]
                final(self).in_bounds(i, j) ==> final(self).at(i, j) == if r && i == row && j
                    == col {
                    val
                } else {
                    old(self).at(i, j)
                },
    {
        if row < self.rows && col < self.cols {
            proof {
                lemma_cm_index(row as int, col as int, self.rows as int, self.cols as int);
            }
            let _n = self.data.len();
            let index = col * self.rows + row;
            self.data.set(index, val);
            proof {
                assert forall|i: int, j: int| #[trigger] self.in_bounds(i, j) implies self.at(i, j)
                    == if i == row && j == col {
                    val
                } else {
                    old(self).at(i, j)
                } by {
                    lemma_cm_index(i, j, self.rows as int, self.cols as int);
                    if j * self.rows + i == index as int {
                        lemma_cm_index(row as int, col as int, self.rows as int, self.cols as int);
                    }
                }
            }
            true
        } else {
            false
        }
    }

    /// The transpose: entry `(i, j)` of the result is entry `(j, i)` of `self`.
    pub fn transpose(&self) -> (t: Self)
        requires
            self.wf(),
        ensures
            t.wf(),
            t.nrows() == self.ncols(),
            t.ncols() == self.nrows(),
            forall|i: int, j: int| #[trigger] t.in_bounds(i, j) ==> t.at(i, j) == self.at(j, i),
    {
        let r = self.cols;
        let c = self.rows;
        let n = self.data.len();
        proof {
            vstd::arithmetic::mul::lemma_mul_is_commutative(r as int, c as int);
        }
        let mut data: Vec<T> = Vec::new();
        let mut k: usize = 0;
        while k < n
            invariant
                self.wf(),
                r == self.ncols(),
                c == self.nrows(),
                n == r * c,
                k <= n,
                data@.len() == k,
                forall|q: int|
                    0 <= q < k ==> #[trigger] data@[q] == self.at(q / (r as int), q % (r as int)),
            decreases n - k,
        {
            proof {
                lemma_cm_split(k as int, r as int, c as int);
            }
            let i = k % r;
            let j = k / r;
            let v = self.entry(j, i);
            data.push(v);
            k = k + 1;
        }
        proof {
            let f = |i: int, j: int| self.at(j, i);
            lemma_cm_seq(data@, r as int, c as int, f);
        }
        Matrix { rows: r, cols: c, data }
    }

    /// The `rows x cols` matrix with ones on the diagonal and zeros elsewhere
    /// (both as images of natural numbers).
    pub fn identity(rows: usize, cols: usize) -> (m: Self)
        requires
            rows * cols <= usize::MAX,
        ensures
            m.wf(),
            m.nrows() == rows,
            m.ncols() == cols,
            forall|i: int, j: int| #[trigger]
                m.in_bounds(i, j) ==> m.at(i, j) == if i == j {
                    T::spec_from_usize(1)
                } else {
                    T::spec_from_usize(0)
                },
    {
        let n = rows * cols;
        let one = T::from_usize(1);
        let zero = T::from_usize(0);
        let mut data: Vec<T> = Vec::new();
        let mut k: usize = 0;
        while k < n
            invariant
                n == rows * cols,
                one == T::spec_from_usize(1),
                zero == T::spec_from_usize(0),
                k <= n,
                data@.len() == k,
                forall|q: int|
                    0 <= q < k ==> #[trigger] data@[q] == if q % (rows as int) == q / (
                    rows as int) {
                        T::spec_from_usize(1)
                    } else {
                        T::spec_from_usize(0)
                    },
            decreases n - k,
        {
            proof {
                lemma_cm_split(k as int, rows as int, cols as int);
            }
            let i = k % rows;
            let j = k / rows;
            if i == j {
                data.push(one);
            } else {
                data.push(zero);
            }
            k = k + 1;
        }
        proof {
            let f = |i: int, j: int|
                if i == j {
                    T::spec_from_usize(1)
                } else {
                    T::spec_from_usize(0)
                };
            lemma_cm_seq(data@, rows as int, cols as int, f);
        }
        Matrix { rows, cols, data }
    }

    /// Sets every entry to `val`.
    pub fn set_constant(&mut self, val: T)
        requires
            old(self).wf(),
        ensures
            final(self).wf(),
            final(self).same_shape(old(self)),
            forall|i: int, j: int| #[trigger] final(self).in_bounds(i, j) ==> final(self).at(i, j) == val,
    {
        let n = self.data.len();
        let mut k: usize = 0;
        while k < n
            invariant
                n == self.data@.len(),
                self.rows == old(self).rows,
                self.cols == old(self).cols,
                k <= n,
                forall|q: int| 0 <= q < k ==> #[trigger] self.data@[q] == val,
            decreases n - k,
        {
            self.data.set(k, val);
            k = k + 1;
        }
        proof {
            assert forall|i: int, j: int| #[trigger] self.in_bounds(i, j) implies self.at(i, j)
                == val by {
                lemma_cm_index(i, j, self.rows as int, self.cols as int);
            }
        }
    }

    /// Sets every entry to zero.
    pub fn set_zero(&mut self)
        requires
            old(self).wf(),
        ensures
            final(self).wf(),
            final(self).same_shape(old(self)),
            forall|i: int, j: int| #[trigger]
                final(self).in_bounds(i, j) ==> final(self).at(i, j) == T::spec_zero(),
    {
        self.set_constant(T::zero());
    }

    /// Sets the matrix to zeros with ones on the main diagonal.
    pub fn set_identity(&mut self)
        requires
            old(self).wf(),
        ensures
            final(self).wf(),
            final(self).same_shape(old(self)),
            forall|i: int, j: int| #[trigger]
                final(self).in_bounds(i, j) ==> final(self).at(i, j) == if i == j {
                    T::spec_from_usize(1)
                } else {
                    T::spec_zero()
                },
    {
        self.set_zero();
        let n = if self.rows < self.cols {
            self.rows
        } else {
            self.cols
        };
        let one = T::from_usize(1);
        let mut d: usize = 0;
        while d < n
            invariant
                self.wf(),
                self.same_shape(old(self)),
                one == T::spec_from_usize(1),
                n <= self.nrows(),
                n <= self.ncols(),
                d <= n,
                forall|i: int, j: int| #[trigger]
                    self.in_bounds(i, j) ==> self.at(i, j) == if i == j && i < d {
                        T::spec_from_usize(1)
                    } else {
                        T::spec_zero()
                    },
            decreases n - d,
        {
            let ghost prev = *self;
            self.set(d, d, one);
            proof {
                assert forall|i: int, j: int| #[trigger] self.in_bounds(i, j) implies self.at(i, j)
                    == if i == j && i < d + 1 {
                    T::spec_from_usize(1)
                } else {
                    T::spec_zero()
                } by {
                    assert(prev.in_bounds(i, j));
                }
            }
            d = d + 1;
        }
    }

    /// Multiplies every entry by `factor` (on the right).
    pub fn scale(&mut self, factor: T)
        requires
            old(self).wf(),
        ensures
            final(self).wf(),
            final(self).same_shape(old(self)),
            forall|i: int, j: int| #[trigger]
                final(self).in_bounds(i, j) ==> final(self).at(i, j) == old(self).at(i, j).spec_times(
                    factor,
                ),
    {
        let n = self.data.len();
        let mut k: usize = 0;
        while k < n
            invariant
                n == self.data@.len(),
                n == old(self).data@.len(),
                self.rows == old(self).rows,
                self.cols == old(self).cols,
                k <= n,
                forall|q: int|
                    0 <= q < k ==> #[trigger] self.data@[q] == old(self).data@[q].spec_times(factor),
                forall|q: int| k <= q < n ==> #[trigger] self.data@[q] == old(self).data@[q],
            decreases n - k,
        {
            let v = self.data[k].times(factor);
            self.data.set(k, v);
            k = k + 1;
        }
        proof {
            assert forall|i: int, j: int| #[trigger] self.in_bounds(i, j) implies self.at(i, j)
                == old(self).at(i, j).spec_times(factor) by {
                lemma_cm_index(i, j, self.rows as int, self.cols as int);
            }
        }
    }

    /// Entry-by-entry sum; both matrices have the same shape.
    pub fn cwise_add(&self, rhs: &Self) -> (m: Self)
        requires
            self.wf(),
            rhs.wf(),
            self.same_shape(rhs),
        ensures
            m.wf(),
            m.same_shape(self),
            forall|i: int, j: int| #[trigger]
                m.in_bounds(i, j) ==> m.at(i, j) == self.at(i, j).spec_plus(rhs.at(i, j)),
    {
        let n = self.data.len();
        let mut data: Vec<T> = Vec::new();
        let mut k: usize = 0;
        while k < n
            invariant
                self.wf(),
                rhs.wf(),
                self.same_shape(rhs),
                n == self.data@.len(),
                k <= n,
                data@.len() == k,
                forall|q: int|
                    0 <= q < k ==> #[trigger] data@[q] == self.data@[q].spec_plus(rhs.data@[q]),
            decreases n - k,
        {
            data.push(self.data[k].plus(rhs.data[k]));
            k = k + 1;
        }
        let m = Matrix { rows: self.rows, cols: self.cols, data };
        proof {
            assert forall|i: int, j: int| #[trigger] m.in_bounds(i, j) implies m.at(i, j)
                == self.at(i, j).spec_plus(rhs.at(i, j)) by {
                lemma_cm_index(i, j, self.rows as int, self.cols as int);
            }
        }
        m
    }

    /// Entry-by-entry difference; both matrices have the same shape.
    pub fn cwise_sub(&self, rhs: &Self) -> (m: Self)
        requires
            self.wf(),
            rhs.wf(),
            self.same_shape(rhs),
        ensures
            m.wf(),
            m.same_shape(self),
            forall|i: int, j: int| #[trigger]
                m.in_bounds(i, j) ==> m.at(i, j) == self.at(i, j).spec_minus(rhs.at(i, j)),
    {
        let n = self.data.len();
        let mut data: Vec<T> = Vec::new();
        let mut k: usize = 0;
        while k < n
            invariant
                self.wf(),
                rhs.wf(),
                self.same_shape(rhs),
                n == self.data@.len(),
                k <= n,
                data@.len() == k,
                forall|q: int|
                    0 <= q < k ==> #[trigger] data@[q] == self.data@[q].spec_minus(rhs.data@[q]),
            decreases n - k,
        {
            data.push(self.data[k].minus(rhs.data[k]));
            k = k + 1;
        }
        let m = Matrix { rows: self.rows, cols: self.cols, data };
        proof {
            assert forall|i: int, j: int| #[trigger] m.in_bounds(i, j) implies m.at(i, j)
                == self.at(i, j).spec_minus(rhs.at(i, j)) by {
                lemma_cm_index(i, j, self.rows as int, self.cols as int);
            }
        }
        m
    }

    /// Every entry multiplied (on the right) by `s`.
    pub fn scalar_mul(&self, s: T) -> (m: Self)
        requires
            self.wf(),
        ensures
            m.wf(),
            m.same_shape(self),
            forall|i: int, j: int| #[trigger] m.in_bounds(i, j) ==> m.at(i, j) == self.at(i, j).spec_times(s),
    {
        let n = self.data.len();
        let mut data: Vec<T> = Vec::new();
        let mut k: usize = 0;
        while k < n
            invariant
                self.wf(),
                n == self.data@.len(),
                k <= n,
                data@.len() == k,
                forall|q: int| 0 <= q < k ==> #[trigger] data@[q] == self.data@[q].spec_times(s),
            decreases n - k,
        {
            data.push(self.data[k].times(s));
            k = k + 1;
        }
        let m = Matrix { rows: self.rows, cols: self.cols, data };
        proof {
            assert forall|i: int, j: int| #[trigger] m.in_bounds(i, j) implies m.at(i, j)
                == self.at(i, j).spec_times(s) by {
                lemma_cm_index(i, j, self.rows as int, self.cols as int);
            }
        }
        m
    }

    /// The dot product of the entries of two matrices of equal size, taken in
    /// storage order.
    pub fn dot(&self, other: &Self) -> (r: T)
        requires
            self.wf(),
            other.wf(),
            self.elems().len() == other.elems().len(),
        ensures
            r == dot_upto(self.elems(), other.elems(), self.elems().len()),
    {
        let n = self.data.len();
        let mut sum = T::zero();
        let mut k: usize = 0;
        while k < n
            invariant
                n == self.data@.len(),
                n == other.data@.len(),
                k <= n,
                sum == dot_upto(self.data@, other.data@, k as nat),
            decreases n - k,
        {
            sum = sum.plus(self.data[k].times(other.data[k]));
            k = k + 1;
        }
        sum
    }

    /// The dot product of the entries with themselves.
    pub fn squared_norm(&self) -> (r: T)
        requires
            self.wf(),
        ensures
            r == dot_upto(self.elems(), self.elems(), self.elems().len()),
    {
        self.dot(self)
    }

    /// The square root of the squared norm.
    pub fn norm(&self) -> (r: T)
        requires
            self.wf(),
        ensures
            r == dot_upto(self.elems(), self.elems(), self.elems().len()).spec_sqrt(),
    {
        self.squared_norm().sqrt()
    }

    /// Divides every entry by the norm (multiplying by its reciprocal
    /// `1 / norm`), unless the norm equals zero.
    pub fn normalize(&mut self)
        requires
            old(self).wf(),
        ensures
            final(self).wf(),
            final(self).same_shape(old(self)),
            ({
                let n = dot_upto(old(self).elems(), old(self).elems(), old(self).elems().len()).spec_sqrt();
                let inv = T::spec_from_usize(1).spec_over(n);
                forall|i: int, j: int| #[trigger]
                    final(self).in_bounds(i, j) ==> final(self).at(i, j) == if n.spec_eq(T::spec_zero()) {
                        old(self).at(i, j)
                    } else {
                        old(self).at(i, j).spec_times(inv)
                    }
            }),
    {
        let n = self.norm();
        if !n.is_eq(T::zero()) {
            let inv_n = T::from_usize(1).over(n);
            self.scale(inv_n);
        }
    }

    /// An entry-by-entry copy.
    pub fn copy(&self) -> (m: Self)
        requires
            self.wf(),
        ensures
            m.wf(),
            m.same_shape(self),
            m.elems() == self.elems(),
    {
        let n = self.data.len();
        let mut data: Vec<T> = Vec::new();
        let mut k: usize = 0;
        while k < n
            invariant
                n == self.data@.len(),
                k <= n,
                data@ == self.data@.subrange(0, k as int),
            decreases n - k,
        {
            data.push(self.data[k]);
            k = k + 1;
        }
        assert(data@ == self.data@);
        Matrix { rows: self.rows, cols: self.cols, data }
    }

    /// A normalized copy (see `normalize`).
    pub fn normalized(&self) -> (m: Self)
        requires
            self.wf(),
        ensures
            m.wf(),
            m.same_shape(self),
            ({
                let n = dot_upto(self.elems(), self.elems(), self.elems().len()).spec_sqrt();
                let inv = T::spec_from_usize(1).spec_over(n);
                forall|i: int, j: int| #[trigger]
                    m.in_bounds(i, j) ==> m.at(i, j) == if n.spec_eq(T::spec_zero()) {
                        self.at(i, j)
                    } else {
                        self.at(i, j).spec_times(inv)
                    }
            }),
    {
        let mut m = self.copy();
        m.normalize();
        m
    }

    /// Copies the entries of `other` into `self`; fails (changing nothing)
    /// when the shapes differ.
    pub fn assign(&mut self, other: &Self) -> (r: Result<(), String>)
        requires
            old(self).wf(),
            other.wf(),
        ensures
            r is Ok <==> old(self).same_shape(other),
            final(self).wf(),
            final(self).same_shape(old(self)),
            r is Ok ==> final(self).elems() == other.elems(),
            r is Err ==> final(self).elems() == old(self).elems(),
            r matches Err(e) ==> e@ == "Dimension mismatch in assignment"@,
    {
        if self.rows != other.rows || self.cols != other.cols {
            return Err("Dimension mismatch in assignment".to_string());
        }
        let n = self.data.len();
        let mut k: usize = 0;
        while k < n
            invariant
                n == self.data@.len(),
                n == other.data@.len(),
                self.rows == old(self).rows,
                self.cols == old(self).cols,
                k <= n,
                forall|q: int| 0 <= q < k ==> #[trigger] self.data@[q] == other.data@[q],
            decreases n - k,
        {
            self.data.set(k, other.data[k]);
            k = k + 1;
        }
        assert(self.data@ == other.data@);
        Ok(())
    }

    /// The matrix product `self * rhs`.
    pub fn product(&self, rhs: &Self) -> (m: Self)
        requires
            self.wf(),
            rhs.wf(),
            self.ncols() == rhs.nrows(),
            self.nrows() * rhs.ncols() <= usize::MAX,
        ensures
            m.wf(),
            m.nrows() == self.nrows(),
            m.ncols() == rhs.ncols(),
            forall|i: int, j: int| #[trigger]
                m.in_bounds(i, j) ==> m.at(i, j) == product_entry(*self, *rhs, i, j, self.ncols()),
    {
        let r = self.rows;
        let c = rhs.cols;
        let inner = self.cols;
        let n = r * c;
        let mut data: Vec<T> = Vec::new();
        let mut k: usize = 0;
        while k < n
            invariant
                self.wf(),
                rhs.wf(),
                inner == self.ncols(),
                inner == rhs.nrows(),
                r == self.nrows(),
                c == rhs.ncols(),
                n == r * c,
                k <= n,
                data@.len() == k,
                forall|q: int|
                    0 <= q < k ==> #[trigger] data@[q] == product_entry(
                        *self,
                        *rhs,
                        q % (r as int),
                        q / (r as int),
                        inner as nat,
                    ),
            decreases n - k,
        {
            proof {
                lemma_cm_split(k as int, r as int, c as int);
            }
            let i = k % r;
            let j = k / r;
            let mut sum = T::zero();
            let mut t: usize = 0;
            while t < inner
                invariant
                    self.wf(),
                    rhs.wf(),
                    inner == self.ncols(),
                    inner == rhs.nrows(),
                    i < self.nrows(),
                    j < rhs.ncols(),
                    t <= inner,
                    sum == product_entry(*self, *rhs, i as int, j as int, t as nat),
                decreases inner - t,
            {
                sum = sum.plus(self.entry(i, t).times(rhs.entry(t, j)));
                t = t + 1;
            }
            data.push(sum);
            k = k + 1;
        }
        let m = Matrix { rows: r, cols: c, data };
        proof {
            let f = |i: int, j: int| product_entry(*self, *rhs, i, j, inner as nat);
            lemma_cm_seq(data@, r as int, c as int, f);
        }
        m
    }

    /// The `nrows x ncols` sub-matrix whose top-left entry is
    /// `(start_row, start_col)`.
    pub fn block(&self, start_row: usize, start_col: usize, nrows: usize, ncols: usize) -> (m: Self)
        requires
            self.wf(),
            start_row + nrows <= self.nrows(),
            start_col + ncols <= self.ncols(),
        ensures
            m.wf(),
            m.nrows() == nrows,
            m.ncols() == ncols,
            forall|i: int, j: int| #[trigger]
                m.in_bounds(i, j) ==> m.at(i, j) == self.at(start_row + i, start_col + j),
    {
        let _len = self.data.len();
        proof {
            lemma_sub_size(nrows as int, ncols as int, self.rows as int, self.cols as int);
        }
        let n = nrows * ncols;
        let mut data: Vec<T> = Vec::new();
        let mut k: usize = 0;
        while k < n
            invariant
                self.wf(),
                start_row + nrows <= self.nrows(),
                start_col + ncols <= self.ncols(),
                n == nrows * ncols,
                k <= n,
                data@.len() == k,
                forall|q: int|
                    0 <= q < k ==> #[trigger] data@[q] == self.at(
                        start_row + q % (nrows as int),
                        start_col + q / (nrows as int),
                    ),
            decreases n - k,
        {
            proof {
                lemma_cm_split(k as int, nrows as int, ncols as int);
            }
            let i = k % nrows;
            let j = k / nrows;
            data.push(self.entry(start_row + i, start_col + j));
            k = k + 1;
        }
        let m = Matrix { rows: nrows, cols: ncols, data };
        proof {
            let f = |i: int, j: int| self.at(start_row + i, start_col + j);
            lemma_cm_seq(data@, nrows as int, ncols as int, f);
        }
        m
    }

    /// Row `i` as a `1 x cols` matrix.
    pub fn row(&self, i: usize) -> (m: Self)
        requires
            self.wf(),
            i < self.nrows(),
        ensures
            m.wf(),
            m.nrows() == 1,
            m.ncols() == self.ncols(),
            forall|j: int| 0 <= j < self.ncols() ==> #[trigger] m.at(0, j) == self.at(i as int, j),
    {
        let m = self.block(i, 0, 1, self.cols);
        assert forall|j: int| 0 <= j < self.ncols() implies #[trigger] m.at(0, j) == self.at(
            i as int,
            j,
        ) by {
            assert(m.in_bounds(0, j));
        }
        m
    }

    /// Column `j` as a `rows x 1` matrix.
    pub fn col(&self, j: usize) -> (m: Self)
        requires
            self.wf(),
            j < self.ncols(),
        ensures
            m.wf(),
            m.nrows() == self.nrows(),
            m.ncols() == 1,
            forall|i: int| 0 <= i < self.nrows() ==> #[trigger] m.at(i, 0) == self.at(i, j as int),
    {
        let m = self.block(0, j, self.rows, 1);
        assert forall|i: int| 0 <= i < self.nrows() implies #[trigger] m.at(i, 0) == self.at(
            i,
            j as int,
        ) by {
            assert(m.in_bounds(i, 0));
        }
        m
    }

    /// The cross product of two 3-vectors (both `3 x 1`).
    pub fn cross(&self, other: &Self) -> (m: Self)
        requires
            self.wf(),
            other.wf(),
            self.nrows() == 3,
            self.ncols() == 1,
            other.nrows() == 3,
            other.ncols() == 1,
        ensures
            m.wf(),
            m.nrows() == 3,
            m.ncols() == 1,
            m.elems() == cross3(self.elems(), other.elems()),
    {
        let a1 = self.data[0];
        let a2 = self.data[1];
        let a3 = self.data[2];
        let b1 = other.data[0];
        let b2 = other.data[1];
        let b3 = other.data[2];
        let mut data: Vec<T> = Vec::new();
        data.push(a2.times(b3).minus(a3.times(b2)));
        data.push(a3.times(b1).minus(a1.times(b3)));
        data.push(a1.times(b2).minus(a2.times(b1)));
        let m = Matrix { rows: 3, cols: 1, data };
        assert(m.elems() == cross3(self.elems(), other.elems()));
        m
    }

    fn map_unary(&self, f: UnaryFn) -> (m: Self)
        requires
            self.wf(),
            unary_available::<T>(f),
        ensures
            m.wf(),
            m.same_shape(self),
            forall|i: int, j: int| #[trigger] m.in_bounds(i, j) ==> m.at(i, j) == unary_spec(f, self.at(i, j)),
    {
        let n = self.data.len();
        let mut data: Vec<T> = Vec::new();
        let mut k: usize = 0;
        while k < n
            invariant
                self.wf(),
                unary_available::<T>(f),
                n == self.data@.len(),
                k <= n,
                data@.len() == k,
                forall|q: int| 0 <= q < k ==> #[trigger] data@[q] == unary_spec(f, self.data@[q]),
            decreases n - k,
        {
            data.push(apply_unary(f, self.data[k]));
            k = k + 1;
        }
        let m = Matrix { rows: self.rows, cols: self.cols, data };
        proof {
            assert forall|i: int, j: int| #[trigger] m.in_bounds(i, j) implies m.at(i, j)
                == unary_spec(f, self.at(i, j)) by {
                lemma_cm_index(i, j, self.rows as int, self.cols as int);
            }
        }
        m
    }

    /// Entry-wise sine.
    pub fn sin(&self) -> (m: Self)
        requires
            self.wf(),
            T::spec_has_trig(),
        ensures
            m.wf(),
            m.same_shape(self),
            forall|i: int, j: int| #[trigger] m.in_bounds(i, j) ==> m.at(i, j) == self.at(i, j).spec_sin(),
    {
        self.map_unary(UnaryFn::Sin)
    }

    /// Entry-wise cosine.
    pub fn cos(&self) -> (m: Self)
        requires
            self.wf(),
            T::spec_has_trig(),
        ensures
            m.wf(),
            m.same_shape(self),
            forall|i: int, j: int| #[trigger] m.in_bounds(i, j) ==> m.at(i, j) == self.at(i, j).spec_cos(),
    {
        self.map_unary(UnaryFn::Cos)
    }

    /// Entry-wise exponential.
    pub fn exp(&self) -> (m: Self)
        requires
            self.wf(),
            T::spec_has_exp_ln(),
        ensures
            m.wf(),
            m.same_shape(self),
            forall|i: int, j: int| #[trigger] m.in_bounds(i, j) ==> m.at(i, j) == self.at(i, j).spec_exp(),
    {
        self.map_unary(UnaryFn::Exp)
    }

    /// Entry-wise natural logarithm.
    pub fn ln(&self) -> (m: Self)
        requires
            self.wf(),
            T::spec_has_exp_ln(),
        ensures
            m.wf(),
            m.same_shape(self),
            forall|i: int, j: int| #[trigger] m.in_bounds(i, j) ==> m.at(i, j) == self.at(i, j).spec_ln(),
    {
        self.map_unary(UnaryFn::Ln)
    }

    /// Shape equality followed by entry-wise equality (in the sense of the
    /// scalar type).
    pub fn equals(&self, other: &Self) -> (r: bool)
        requires
            self.wf(),
            other.wf(),
        ensures
            r == (self.same_shape(other) && forall|i: int, j: int| #[trigger]
                self.in_bounds(i, j) ==> self.at(i, j).spec_eq(other.at(i, j))),
    {
        if self.rows != other.rows || self.cols != other.cols {
            return false;
        }
        let n = self.data.len();
        let mut k: usize = 0;
        while k < n
            invariant
                self.wf(),
                other.wf(),
                self.same_shape(other),
                n == self.data@.len(),
                k <= n,
                forall|q: int| 0 <= q < k ==> #[trigger] self.data@[q].spec_eq(other.data@[q]),
            decreases n - k,
        {
            if !self.data[k].is_eq(other.data[k]) {
                proof {
                    lemma_cm_split(k as int, self.rows as int, self.cols as int);
                    let i = k as int % self.rows as int;
                    let j = k as int / self.rows as int;
                    assert(self.in_bounds(i, j));
                    assert(j * self.rows + i == k);
                }
                return false;
            }
            k = k + 1;
        }
        proof {
            assert forall|i: int, j: int| #[trigger] self.in_bounds(i, j) implies self.at(
                i,
                j,
            ).spec_eq(other.at(i, j)) by {
                lemma_cm_index(i, j, self.rows as int, self.cols as int);
            }
        }
        true
    }
}

} // verus!
