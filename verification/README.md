# eigen_rs

Dense linear algebra verified with Verus: matrices, complex numbers,
decompositions (LU, QR, Cholesky, LDLT, Hessenberg, tridiagonal, real and
complex Schur, eigen solvers, Jacobi and divide-and-conquer SVD), geometry
(quaternions, transforms, boxes, lines, planes), iterative solvers, a small
expression evaluator, tensors and a linear layer.

Everything is generic over the trait `Scalar` (`src/scalar.rs`), whose
operations are described by spec functions of the implementing type. The
contracts state each result exactly, as the spec function that performs the
same sequence of scalar operations on the mathematical model of the input,
together with exactly when a call succeeds and which error text it returns
otherwise. Laws that need properties of the arithmetic (for example, that
the singular values come out in descending order) are public proof
functions whose hypotheses name those properties.

Layout:

- `src/` — the verified library.
- `tests/` — tests run against the library with `f64` and `f32` scalars.
- `app/` — floating-point scalar types and a thread-pool copy routine, which
  Verus does not check.
