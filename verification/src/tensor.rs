//! Dense `N`-dimensional arrays.

use crate::matrix::Matrix;
use crate::scalar::Scalar;
use vstd::prelude::*;

verus! {

/// The number of entries of an array with the given shape.
pub open spec fn shape_product(shape: Seq<usize>) -> nat
    decreases shape.len(),
{
    if shape.len() == 0 {
        1
    } else {
        shape_product(shape.drop_last()) * (shape.last() as nat)
    }
}

/// A dense array with `N` axes. A two-axis tensor of shape `[rows, cols]`
/// stores its entries in the same (column-major) order as a `Matrix`.
pub struct Tensor<T, const N: usize> {
    shape: Vec<usize>,
    data: Vec<T>,
}

/// Copies a vector of scalars.
fn copy_vec<T: Scalar>(v: &Vec<T>) -> (r: Vec<T>)
    ensures
        r@ == v@,
{
    let mut r: Vec<T> = Vec::new();
    let mut k: usize = 0;
    while k < v.len()
        invariant
            k <= v@.len(),
            r@ == v@.subrange(0, k as int),
        decreases v@.len() - k,
    {
        r.push(v[k]);
        k = k + 1;
    }
    assert(r@ == v@);
    r
}

impl<T, const N: usize> Tensor<T, N> {
    pub closed spec fn spec_shape(&self) -> Seq<usize> {
        self.shape@
    }

    pub closed spec fn elems(&self) -> Seq<T> {
        self.data@
    }

    /// `N` axes, and as many entries as the shape describes.
    pub open spec fn wf(&self) -> bool {
        &&& self.spec_shape().len() == N
        &&& self.elems().len() == shape_product(self.spec_shape())
    }

    /// The shape, one length per axis.
    pub fn shape(&self) -> (r: &Vec<usize>)
        ensures
            r@ == self.spec_shape(),
    {
        &self.shape
    }

    /// The entries in storage order.
    pub fn data(&self) -> (r: &Vec<T>)
        ensures
            r@ == self.elems(),
    {
        &self.data
    }
}

impl<T: Scalar, const N: usize> Tensor<T, N> {
    /// A tensor of zeros with the given shape; fails when the number of
    /// entries does not fit in `usize`.
    pub fn new(shape: [usize; N]) -> (r: Result<Self, String>)
        ensures
            r is Ok <==> shape_product(shape@) <= usize::MAX,
            r matches Ok(t) ==> {
                &&& t.wf()
                &&& t.spec_shape() == shape@
                &&& forall|k: int| 0 <= k < t.elems().len() ==> #[trigger] t.elems()[k] == T::spec_zero()
            },
            r matches Err(e) ==> e@ == "Tensor size overflow"@,
    {
        let mut has_zero = false;
        let mut z: usize = 0;
        while z < N
            invariant
                z <= N,
                shape@.len() == N,
                has_zero == exists|q: int| 0 <= q < z && shape@[q] == 0,
            decreases N - z,
        {
            if shape[z] == 0 {
                has_zero = true;
            }
            z = z + 1;
        }
        let mut dims: Vec<usize> = Vec::new();
        let mut count: usize = 1;
        let mut i: usize = 0;
        while i < N
            invariant
                i <= N,
                shape@.len() == N,
                has_zero == exists|q: int| 0 <= q < N && shape@[q] == 0,
                dims@ == shape@.subrange(0, i as int),
                has_zero ==> count == 0 || count == shape_product(dims@),
                !has_zero ==> count == shape_product(dims@),
                has_zero && (exists|q: int| 0 <= q < i && shape@[q] == 0) ==> count == 0,
            decreases N - i,
        {
            proof {
                assert(dims@.push(shape@[i as int]).drop_last() == dims@);
            }
            if has_zero {
                count = 0;
            } else {
                match count.checked_mul(shape[i]) {
                    None => {
                        proof {
                            assert(shape@.subrange(0, i + 1) == dims@.push(shape@[i as int]));
                            Self::lemma_product_grows(shape@, (i + 1) as nat);
                        }
                        return Err("Tensor size overflow".to_string());
                    },
                    Some(c) => {
                        count = c;
                    },
                }
            }
            dims.push(shape[i]);
            i = i + 1;
        }
        proof {
            if has_zero {
                Self::lemma_product_zero(shape@);
            }
        }
        assert(dims@ == shape@);
        let mut data: Vec<T> = Vec::new();
        let mut k: usize = 0;
        while k < count
            invariant
                k <= count,
                data@.len() == k,
                forall|q: int| 0 <= q < k ==> #[trigger] data@[q] == T::spec_zero(),
            decreases count - k,
        {
            data.push(T::zero());
            k = k + 1;
        }
        Ok(Tensor { shape: dims, data })
    }

    /// A shape with a zero length has no entries.
    proof fn lemma_product_zero(shape: Seq<usize>)
        requires
            exists|q: int| 0 <= q < shape.len() && shape[q] == 0,
        ensures
            shape_product(shape) == 0,
        decreases shape.len(),
    {
        if shape.last() != 0 {
            let q = choose|q: int| 0 <= q < shape.len() && shape[q] == 0;
            assert(shape.drop_last()[q] == 0);
            Self::lemma_product_zero(shape.drop_last());
            vstd::arithmetic::mul::lemma_mul_by_zero_is_zero(shape.last() as int);
        } else {
            vstd::arithmetic::mul::lemma_mul_by_zero_is_zero(shape_product(shape.drop_last()) as int);
        }
    }

    /// With no zero length, a prefix with more entries than fit makes the
    /// whole shape have more entries than fit.
    proof fn lemma_product_grows(shape: Seq<usize>, k: nat)
        requires
            k <= shape.len(),
            forall|q: int| 0 <= q < shape.len() ==> shape[q] != 0,
            shape_product(shape.subrange(0, k as int)) > usize::MAX,
        ensures
            shape_product(shape) > usize::MAX,
        decreases shape.len() - k,
    {
        if k < shape.len() {
            let pre = shape.subrange(0, k as int);
            let next = shape.subrange(0, (k + 1) as int);
            assert(next.drop_last() == pre);
            assert(shape_product(next) == shape_product(pre) * shape[k as int]);
            assert(shape_product(next) >= shape_product(pre)) by (nonlinear_arith)
                requires
                    shape_product(next) == shape_product(pre) * shape[k as int],
                    shape[k as int] >= 1,
            ;
            Self::lemma_product_grows(shape, k + 1);
        } else {
            assert(shape.subrange(0, k as int) == shape);
        }
    }

    /// The matrix holding the entries of a two-axis tensor; fails for any
    /// other number of axes.
    pub fn to_matrix(&self) -> (r: Result<Matrix<T>, String>)
        requires
            self.wf(),
        ensures
            r is Ok <==> N == 2,
            r matches Ok(m) ==> {
                &&& m.wf()
                &&& m.nrows() == self.spec_shape()[0]
                &&& m.ncols() == self.spec_shape()[1]
                &&& m.elems() == self.elems()
            },
            r matches Err(e) ==> e@ == "Only two-axis tensors convert to matrices"@,
    {
        if N != 2 {
            return Err("Only two-axis tensors convert to matrices".to_string());
        }
        let rows = self.shape[0];
        let cols = self.shape[1];
        proof {
            lemma_shape_product_2(self.spec_shape());
        }
        let data = copy_vec(&self.data);
        Matrix::from_vec(rows, cols, data)
    }

    /// The two-axis tensor holding the entries of `m`.
    pub fn from_matrix(m: Matrix<T>) -> (t: Self)
        requires
            N == 2,
            m.wf(),
        ensures
            t.wf(),
            t.spec_shape() == seq![m.nrows() as usize, m.ncols() as usize],
            t.elems() == m.elems(),
    {
        let mut shape: Vec<usize> = Vec::new();
        shape.push(m.rows());
        shape.push(m.cols());
        proof {
            lemma_shape_product_2(shape@);
        }
        Tensor { shape, data: m.into_data() }
    }
}

/// A two-axis shape `[r, c]` has `r * c` entries.
pub proof fn lemma_shape_product_2(shape: Seq<usize>)
    requires
        shape.len() == 2,
    ensures
        shape_product(shape) == shape[0] * shape[1],
{
    let d1 = shape.drop_last();
    let d0 = d1.drop_last();
    assert(d0.len() == 0);
    assert(shape_product(d0) == 1);
    assert(d1.last() == shape[0]);
    assert(shape_product(d1) == 1 * (shape[0] as nat));
    assert(shape_product(d1) == shape[0] as nat);
    assert(shape_product(shape) == shape_product(d1) * (shape[1] as nat));
}

} // verus!
