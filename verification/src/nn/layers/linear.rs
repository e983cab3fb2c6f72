//! Fully connected layers `Y = X * W^T + b`.

use crate::matrix::{product_of, Matrix};
use crate::nn::Layer;
use crate::scalar::Scalar;
use crate::tensor::Tensor;
use vstd::prelude::*;

verus! {

/// A fully connected layer with weight `out x in` and bias of length `out`.
pub struct Linear<T: Scalar> {
    weight: Tensor<T, 2>,
    bias: Tensor<T, 1>,
}

/// Entry `(i, j)` of a two-axis tensor (column-major storage).
pub open spec fn tensor_at<T>(t: Tensor<T, 2>, i: int, j: int) -> T {
    t.elems()[j * t.spec_shape()[0] + i]
}

/// Entry `(i, j)` of `X * W^T + b` (the bias added only where it has an
/// entry).
pub open spec fn linear_entry<T: Scalar>(
    x: Tensor<T, 2>,
    w: Tensor<T, 2>,
    b: Tensor<T, 1>,
    i: int,
    j: int,
) -> T {
    let prod = product_of(
        |r: int, k: int| tensor_at(x, r, k),
        |k: int, c: int| tensor_at(w, c, k),
        i,
        j,
        x.spec_shape()[1] as nat,
    );
    if j < b.elems().len() {
        prod.spec_plus(b.elems()[j])
    } else {
        prod
    }
}

impl<T: Scalar> Linear<T> {
    /// Both tensors are well formed.
    pub open spec fn wf(&self) -> bool {
        self.spec_weight().wf() && self.spec_bias().wf()
    }

    pub closed spec fn spec_weight(&self) -> Tensor<T, 2> {
        self.weight
    }

    pub closed spec fn spec_bias(&self) -> Tensor<T, 1> {
        self.bias
    }

    /// A layer with zero weight of shape `[out_features, in_features]` and
    /// zero bias of shape `[out_features]`; fails when the weight does not
    /// fit in memory.
    pub fn new(in_features: usize, out_features: usize) -> (r: Result<Self, String>)
        ensures
            r is Ok <==> out_features * in_features <= usize::MAX,
            r matches Ok(l) ==> {
                &&& l.wf()
                &&& l.spec_weight().spec_shape() == seq![out_features, in_features]
                &&& l.spec_bias().spec_shape() == seq![out_features]
                &&& forall|k: int|
                    0 <= k < l.spec_weight().elems().len() ==> #[trigger] l.spec_weight().elems()[k]
                        == T::spec_zero()
                &&& forall|k: int|
                    0 <= k < l.spec_bias().elems().len() ==> #[trigger] l.spec_bias().elems()[k]
                        == T::spec_zero()
            },
            r matches Err(e) ==> e@ == "Tensor size overflow"@,
    {
        let ws = [out_features, in_features];
        let bs = [out_features];
        proof {
            crate::tensor::lemma_shape_product_2(ws@);
            assert(ws@ == seq![out_features, in_features]);
            assert(bs@ == seq![out_features]);
            assert(bs@.drop_last().len() == 0);
            assert(crate::tensor::shape_product(bs@.drop_last()) == 1);
            assert(crate::tensor::shape_product(bs@) == 1 * (out_features as nat));
        }
        let weight = match Tensor::new(ws) {
            Ok(w) => w,
            Err(e) => return Err(e),
        };
        let bias = match Tensor::new(bs) {
            Ok(b) => b,
            Err(e) => return Err(e),
        };
        Ok(Linear { weight, bias })
    }

    pub fn weight(&self) -> (r: &Tensor<T, 2>)
        ensures
            *r == self.spec_weight(),
    {
        &self.weight
    }

    pub fn weight_mut(&mut self) -> (r: &mut Tensor<T, 2>)
        ensures
            *r == old(self).spec_weight(),
            final(self).spec_weight() == *final(r),
            final(self).spec_bias() == old(self).spec_bias(),
    {
        &mut self.weight
    }

    pub fn bias(&self) -> (r: &Tensor<T, 1>)
        ensures
            *r == self.spec_bias(),
    {
        &self.bias
    }

    pub fn bias_mut(&mut self) -> (r: &mut Tensor<T, 1>)
        ensures
            *r == old(self).spec_bias(),
            final(self).spec_bias() == *final(r),
            final(self).spec_weight() == old(self).spec_weight(),
    {
        &mut self.bias
    }
}

impl<T: Scalar> Layer<T> for Linear<T> {
    /// The input is a well-formed `batch x in_features` tensor.
    open spec fn accepts(&self, input: &Tensor<T, 2>) -> bool {
        &&& self.wf()
        &&& input.wf()
        &&& input.spec_shape()[1] == self.spec_weight().spec_shape()[1]
    }

    /// `Y = X * W^T + b`, the bias added to every row; fails when the
    /// `batch x out_features` result does not fit in memory.
    fn forward(&self, input: &Tensor<T, 2>) -> (r: Result<Tensor<T, 2>, String>)
        ensures
            ({
                let m = input.spec_shape()[0];
                let n = self.spec_weight().spec_shape()[0];
                &&& r is Ok <==> m * n <= usize::MAX
                &&& r matches Ok(y) ==> {
                    &&& y.wf()
                    &&& y.spec_shape() == seq![m, n]
                    &&& forall|i: int, j: int|
                        0 <= i < m && 0 <= j < n ==> #[trigger] tensor_at(y, i, j) == linear_entry(
                            *input,
                            self.spec_weight(),
                            self.spec_bias(),
                            i,
                            j,
                        )
                }
            }),
    {
        let x_mat = input.to_matrix()?;
        let w_mat = self.weight.to_matrix()?;
        let m = x_mat.rows();
        let n = w_mat.rows();
        let mut y_mat = Matrix::<T>::new_dynamic(m, n)?;
        let w_t = w_mat.transpose();
        let prod = x_mat.product(&w_t);
        let _ = y_mat.assign(&prod);
        let bias_data = self.bias.data();
        let nb = if bias_data.len() < n {
            bias_data.len()
        } else {
            n
        };
        let mut i: usize = 0;
        while i < m
            invariant
                y_mat.wf(),
                y_mat.nrows() == m,
                y_mat.ncols() == n,
                prod.wf(),
                prod.nrows() == m,
                prod.ncols() == n,
                bias_data@ == self.spec_bias().elems(),
                nb <= n,
                nb <= bias_data@.len(),
                nb == n || nb == bias_data@.len(),
                i <= m,
                forall|a: int, b: int| #[trigger]
                    y_mat.in_bounds(a, b) ==> y_mat.at(a, b) == if a < i && b < nb {
                        prod.at(a, b).spec_plus(bias_data@[b])
                    } else {
                        prod.at(a, b)
                    },
            decreases m - i,
        {
            let mut j: usize = 0;
            while j < nb
                invariant
                    y_mat.wf(),
                    y_mat.nrows() == m,
                    y_mat.ncols() == n,
                    prod.wf(),
                    prod.nrows() == m,
                    prod.ncols() == n,
                    bias_data@ == self.spec_bias().elems(),
                    nb <= n,
                    nb <= bias_data@.len(),
                    i < m,
                    j <= nb,
                    forall|a: int, b: int| #[trigger]
                        y_mat.in_bounds(a, b) ==> y_mat.at(a, b) == if (a < i && b < nb) || (a == i
                            && b < j) {
                            prod.at(a, b).spec_plus(bias_data@[b])
                        } else {
                            prod.at(a, b)
                        },
                decreases nb - j,
            {
                let ghost prev = y_mat;
                assert(prev.in_bounds(i as int, j as int));
                let v = y_mat.entry(i, j).plus(bias_data[j]);
                y_mat.set(i, j, v);
                proof {
                    assert forall|a: int, b: int| #[trigger] y_mat.in_bounds(a, b) implies y_mat.at(
                        a,
                        b,
                    ) == if (a < i && b < nb) || (a == i && b < j + 1) {
                        prod.at(a, b).spec_plus(bias_data@[b])
                    } else {
                        prod.at(a, b)
                    } by {
                        assert(prev.in_bounds(a, b));
                    }
                }
                j = j + 1;
            }
            i = i + 1;
        }
        let y = Tensor::from_matrix(y_mat);
        proof {
            assert forall|a: int, b: int|
                0 <= a < m && 0 <= b < n implies #[trigger] tensor_at(y, a, b) == linear_entry(
                *input,
                self.spec_weight(),
                self.spec_bias(),
                a,
                b,
            ) by {
                assert(y_mat.in_bounds(a, b));
                assert(prod.in_bounds(a, b));
                let fx = |r: int, k: int| tensor_at(*input, r, k);
                let fw = |k: int, c: int| tensor_at(self.spec_weight(), c, k);
                assert forall|k: int| 0 <= k < x_mat.ncols() implies #[trigger] x_mat.at(a, k) == fx(
                    a,
                    k,
                ) by {}
                assert forall|k: int| 0 <= k < x_mat.ncols() implies #[trigger] w_t.at(k, b) == fw(
                    k,
                    b,
                ) by {
                    assert(w_t.in_bounds(k, b));
                }
                crate::matrix::lemma_product_entry_of(
                    x_mat,
                    w_t,
                    fx,
                    fw,
                    a,
                    b,
                    x_mat.ncols(),
                );
            }
        }
        Ok(y)
    }
}

} // verus!
