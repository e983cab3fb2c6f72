//! Neural-network layers.

pub mod layers;

use crate::scalar::Scalar;
use crate::tensor::Tensor;
use vstd::prelude::*;

verus! {

/// A neural-network layer.
pub trait Layer<T: Scalar> {
    /// Whether the layer can process `input` (its shape fits the layer).
    spec fn accepts(&self, input: &Tensor<T, 2>) -> bool;

    /// The forward pass.
    fn forward(&self, input: &Tensor<T, 2>) -> (r: Result<Tensor<T, 2>, String>)
        requires
            self.accepts(input),
    ;
}

} // verus!
