use eigen_rs::complex::Complex;
use eigen_rs::decompositions::bdc_svd::BDCSVD;
use eigen_rs::decompositions::bidiagonal::Bidiagonalization;
use eigen_rs::decompositions::complex_eigen_solver::ComplexEigenSolver;
use eigen_rs::decompositions::complex_schur::ComplexSchur;
use eigen_rs::decompositions::eigen_solver::EigenSolver;
use eigen_rs::decompositions::generalized_eigen_solver::GeneralizedEigenSolver;
use eigen_rs::decompositions::generalized_hessenberg::GeneralizedHessenbergTriangular;
use eigen_rs::decompositions::generalized_selfadjoint::GeneralizedSelfAdjointEigenSolver;
use eigen_rs::decompositions::hessenberg::HessenbergDecomposition;
use eigen_rs::decompositions::ldlt::LDLT;
use eigen_rs::decompositions::llt::LLT;
use eigen_rs::decompositions::lu::PartialPivLU;
use eigen_rs::decompositions::qr::HouseholderQR;
use eigen_rs::decompositions::schur::RealSchur;
use eigen_rs::decompositions::selfadjoint_eigen::{ComputationInfo, SelfAdjointEigenSolver};
use eigen_rs::decompositions::svd::JacobiSVD;
use eigen_rs::decompositions::tridiagonal::Tridiagonalization;
use eigen_rs::geometry::aligned_box::AlignedBox;
use eigen_rs::geometry::euler_angles::EulerAngles;
use eigen_rs::geometry::hyperplane::Hyperplane;
use eigen_rs::geometry::quaternion::Quaternion;
use eigen_rs::geometry::ray::Ray;
use eigen_rs::geometry::scaling::Scaling;
use eigen_rs::geometry::transform::Transform;
use eigen_rs::geometry::translation::Translation;
use eigen_rs::iterative_solvers::bicgstab::BiCGSTAB;
use eigen_rs::iterative_solvers::conjugate_gradient::ConjugateGradient;
use eigen_rs::iterative_solvers::traits::IterativeSolver;
use eigen_rs::jit::Expr;
use eigen_rs::matrix::{Matrix, Matrix2, MatrixX};
use eigen_rs::nn::layers::linear::Linear;
use eigen_rs::nn::Layer;
use eigen_rs::scalar::Scalar;
use eigen_rs::tensor::Tensor;

/// A double-precision number.
#[derive(Clone, Copy, Debug, PartialEq)]
struct F(f64);

impl Scalar for F {
    fn spec_zero() -> Self {
        F(0.0)
    }
    fn spec_from_usize(v: usize) -> Self {
        F(v as f64)
    }
    fn spec_plus(self, rhs: Self) -> Self {
        F(self.0 + rhs.0)
    }
    fn spec_minus(self, rhs: Self) -> Self {
        F(self.0 - rhs.0)
    }
    fn spec_times(self, rhs: Self) -> Self {
        F(self.0 * rhs.0)
    }
    fn spec_over(self, rhs: Self) -> Self {
        F(self.0 / rhs.0)
    }
    fn spec_negate(self) -> Self {
        F(-self.0)
    }
    fn spec_lt(self, rhs: Self) -> bool {
        self.0 < rhs.0
    }
    fn spec_le(self, rhs: Self) -> bool {
        self.0 <= rhs.0
    }
    fn spec_eq(self, rhs: Self) -> bool {
        self.0 == rhs.0
    }
    fn spec_abs(self) -> Self {
        F(self.0.abs())
    }
    fn spec_sqrt(self) -> Self {
        F(self.0.sqrt())
    }
    fn spec_real_sqrt(self) -> Self {
        F(self.0.sqrt())
    }
    fn spec_has_trig() -> bool {
        true
    }
    fn spec_has_exp_ln() -> bool {
        true
    }
    fn spec_recip(self) -> Self {
        F(1.0 / self.0)
    }
    fn spec_norm_sq(self) -> Self {
        F(self.0 * self.0)
    }
    fn spec_sin(self) -> Self {
        F(self.0.sin())
    }
    fn spec_cos(self) -> Self {
        F(self.0.cos())
    }
    fn spec_asin(self) -> Self {
        F(self.0.asin())
    }
    fn spec_acos(self) -> Self {
        F(self.0.acos())
    }
    fn spec_atan2(self, other: Self) -> Self {
        F(self.0.atan2(other.0))
    }
    fn spec_powf(self, n: Self) -> Self {
        F(self.0.powf(n.0))
    }
    fn spec_exp(self) -> Self {
        F(self.0.exp())
    }
    fn spec_ln(self) -> Self {
        F(self.0.ln())
    }
    fn spec_epsilon() -> Self {
        F(f64::EPSILON)
    }
    fn spec_default_tolerance() -> Self {
        F(1e-12)
    }
    fn spec_breakdown_threshold() -> Self {
        F(1e-30)
    }
    fn spec_singular_threshold() -> Self {
        F(1e-18)
    }
    fn spec_svd_tolerance() -> Self {
        F(1e-15)
    }
    fn spec_huge() -> Self {
        F(1e100)
    }
    fn spec_max_value() -> Self {
        F(f64::MAX)
    }
    fn spec_min_value() -> Self {
        F(f64::MIN)
    }
    fn spec_real(self) -> Self {
        self
    }
    fn spec_conj(self) -> Self {
        self
    }
    fn zero() -> Self {
        F(0.0)
    }
    fn from_usize(v: usize) -> Self {
        F(v as f64)
    }
    fn plus(self, rhs: Self) -> Self {
        F(self.0 + rhs.0)
    }
    fn minus(self, rhs: Self) -> Self {
        F(self.0 - rhs.0)
    }
    fn times(self, rhs: Self) -> Self {
        F(self.0 * rhs.0)
    }
    fn over(self, rhs: Self) -> Self {
        F(self.0 / rhs.0)
    }
    fn negate(self) -> Self {
        F(-self.0)
    }
    fn is_lt(self, rhs: Self) -> bool {
        self.0 < rhs.0
    }
    fn is_le(self, rhs: Self) -> bool {
        self.0 <= rhs.0
    }
    fn is_eq(self, rhs: Self) -> bool {
        self.0 == rhs.0
    }
    fn abs(self) -> Self {
        F(self.0.abs())
    }
    fn sqrt(self) -> Self {
        F(self.0.sqrt())
    }
    fn real_sqrt(self) -> Self {
        F(self.0.sqrt())
    }
    fn sin(self) -> Self {
        F(self.0.sin())
    }
    fn cos(self) -> Self {
        F(self.0.cos())
    }
    fn asin(self) -> Self {
        F(self.0.asin())
    }
    fn acos(self) -> Self {
        F(self.0.acos())
    }
    fn atan2(self, other: Self) -> Self {
        F(self.0.atan2(other.0))
    }
    fn powf(self, n: Self) -> Self {
        F(self.0.powf(n.0))
    }
    fn recip(self) -> Self {
        F(1.0 / self.0)
    }
    fn norm_sq(self) -> Self {
        F(self.0 * self.0)
    }
    fn exp(self) -> Self {
        F(self.0.exp())
    }
    fn ln(self) -> Self {
        F(self.0.ln())
    }
    fn epsilon() -> Self {
        F(f64::EPSILON)
    }
    fn default_tolerance() -> Self {
        F(1e-12)
    }
    fn breakdown_threshold() -> Self {
        F(1e-30)
    }
    fn singular_threshold() -> Self {
        F(1e-18)
    }
    fn svd_tolerance() -> Self {
        F(1e-15)
    }
    fn huge() -> Self {
        F(1e100)
    }
    fn max_value() -> Self {
        F(f64::MAX)
    }
    fn min_value() -> Self {
        F(f64::MIN)
    }
    fn real_part(self) -> Self {
        self
    }
    fn conj(self) -> Self {
        self
    }
}

/// A single-precision number.
#[derive(Clone, Copy, Debug, PartialEq)]
struct F32(f32);

impl Scalar for F32 {
    fn spec_zero() -> Self {
        F32(0.0)
    }
    fn spec_from_usize(v: usize) -> Self {
        F32(v as f32)
    }
    fn spec_plus(self, rhs: Self) -> Self {
        F32(self.0 + rhs.0)
    }
    fn spec_minus(self, rhs: Self) -> Self {
        F32(self.0 - rhs.0)
    }
    fn spec_times(self, rhs: Self) -> Self {
        F32(self.0 * rhs.0)
    }
    fn spec_over(self, rhs: Self) -> Self {
        F32(self.0 / rhs.0)
    }
    fn spec_negate(self) -> Self {
        F32(-self.0)
    }
    fn spec_lt(self, rhs: Self) -> bool {
        self.0 < rhs.0
    }
    fn spec_le(self, rhs: Self) -> bool {
        self.0 <= rhs.0
    }
    fn spec_eq(self, rhs: Self) -> bool {
        self.0 == rhs.0
    }
    fn spec_abs(self) -> Self {
        F32(self.0.abs())
    }
    fn spec_sqrt(self) -> Self {
        F32(self.0.sqrt())
    }
    fn spec_real_sqrt(self) -> Self {
        F32(self.0.sqrt())
    }
    fn spec_has_trig() -> bool {
        true
    }
    fn spec_has_exp_ln() -> bool {
        true
    }
    fn spec_recip(self) -> Self {
        F32(1.0 / self.0)
    }
    fn spec_norm_sq(self) -> Self {
        F32(self.0 * self.0)
    }
    fn spec_sin(self) -> Self {
        F32(self.0.sin())
    }
    fn spec_cos(self) -> Self {
        F32(self.0.cos())
    }
    fn spec_asin(self) -> Self {
        F32(self.0.asin())
    }
    fn spec_acos(self) -> Self {
        F32(self.0.acos())
    }
    fn spec_atan2(self, other: Self) -> Self {
        F32(self.0.atan2(other.0))
    }
    fn spec_powf(self, n: Self) -> Self {
        F32(self.0.powf(n.0))
    }
    fn spec_exp(self) -> Self {
        F32(self.0.exp())
    }
    fn spec_ln(self) -> Self {
        F32(self.0.ln())
    }
    fn spec_epsilon() -> Self {
        F32(f32::EPSILON)
    }
    fn spec_default_tolerance() -> Self {
        F32(1e-12)
    }
    fn spec_breakdown_threshold() -> Self {
        F32(1e-30)
    }
    fn spec_singular_threshold() -> Self {
        F32(1e-18)
    }
    fn spec_svd_tolerance() -> Self {
        F32(1e-7)
    }
    fn spec_huge() -> Self {
        F32(1e100_f64 as f32)
    }
    fn spec_max_value() -> Self {
        F32(f32::MAX)
    }
    fn spec_min_value() -> Self {
        F32(f32::MIN)
    }
    fn spec_real(self) -> Self {
        self
    }
    fn spec_conj(self) -> Self {
        self
    }
    fn zero() -> Self {
        F32(0.0)
    }
    fn from_usize(v: usize) -> Self {
        F32(v as f32)
    }
    fn plus(self, rhs: Self) -> Self {
        F32(self.0 + rhs.0)
    }
    fn minus(self, rhs: Self) -> Self {
        F32(self.0 - rhs.0)
    }
    fn times(self, rhs: Self) -> Self {
        F32(self.0 * rhs.0)
    }
    fn over(self, rhs: Self) -> Self {
        F32(self.0 / rhs.0)
    }
    fn negate(self) -> Self {
        F32(-self.0)
    }
    fn is_lt(self, rhs: Self) -> bool {
        self.0 < rhs.0
    }
    fn is_le(self, rhs: Self) -> bool {
        self.0 <= rhs.0
    }
    fn is_eq(self, rhs: Self) -> bool {
        self.0 == rhs.0
    }
    fn abs(self) -> Self {
        F32(self.0.abs())
    }
    fn sqrt(self) -> Self {
        F32(self.0.sqrt())
    }
    fn real_sqrt(self) -> Self {
        F32(self.0.sqrt())
    }
    fn sin(self) -> Self {
        F32(self.0.sin())
    }
    fn cos(self) -> Self {
        F32(self.0.cos())
    }
    fn asin(self) -> Self {
        F32(self.0.asin())
    }
    fn acos(self) -> Self {
        F32(self.0.acos())
    }
    fn atan2(self, other: Self) -> Self {
        F32(self.0.atan2(other.0))
    }
    fn powf(self, n: Self) -> Self {
        F32(self.0.powf(n.0))
    }
    fn recip(self) -> Self {
        F32(1.0 / self.0)
    }
    fn norm_sq(self) -> Self {
        F32(self.0 * self.0)
    }
    fn exp(self) -> Self {
        F32(self.0.exp())
    }
    fn ln(self) -> Self {
        F32(self.0.ln())
    }
    fn epsilon() -> Self {
        F32(f32::EPSILON)
    }
    fn default_tolerance() -> Self {
        F32(1e-12)
    }
    fn breakdown_threshold() -> Self {
        F32(1e-30)
    }
    fn singular_threshold() -> Self {
        F32(1e-18)
    }
    fn svd_tolerance() -> Self {
        F32(1e-7)
    }
    fn huge() -> Self {
        F32(1e100_f64 as f32)
    }
    fn max_value() -> Self {
        F32(f32::MAX)
    }
    fn min_value() -> Self {
        F32(f32::MIN)
    }
    fn real_part(self) -> Self {
        self
    }
    fn conj(self) -> Self {
        self
    }
}

fn mat(rows: usize, cols: usize, row_major: &[f64]) -> Matrix<F> {
    let mut data = Vec::new();
    for j in 0..cols {
        for i in 0..rows {
            data.push(F(row_major[i * cols + j]));
        }
    }
    Matrix::from_vec(rows, cols, data).unwrap()
}

fn at32(m: &Matrix<F32>, i: usize, j: usize) -> f32 {
    m.get(i, j).unwrap().0
}

fn at(m: &Matrix<F>, i: usize, j: usize) -> f64 {
    m.get(i, j).unwrap().0
}

fn close(a: f64, b: f64) -> bool {
    (a - b).abs() < 1e-9
}

fn assert_matrix_close(m: &Matrix<F>, rows: usize, cols: usize, expected: &[f64]) {
    assert_eq!(m.rows(), rows);
    assert_eq!(m.cols(), cols);
    for i in 0..rows {
        for j in 0..cols {
            assert!(close(at(m, i, j), expected[i * cols + j]), "entry ({}, {}): {} vs {}", i, j, at(m, i, j), expected[i * cols + j]);
        }
    }
}

fn vector(v: &[f64]) -> Matrix<F> {
    mat(v.len(), 1, v)
}

// ---------------------------------------------------------------- matrices

#[test]
fn matrix_from_vec_is_column_major() {
    let m = Matrix::from_vec(2, 2, vec![F(1.0), F(2.0), F(3.0), F(4.0)]).unwrap();
    assert_eq!(at(&m, 1, 0), 2.0);
    assert_eq!(at(&m, 0, 1), 3.0);
    assert!(Matrix::from_vec(2, 2, vec![F(1.0)]).is_err());
}

#[test]
fn matrix_get_and_set_outside() {
    let mut m: Matrix<F> = Matrix::zeros(2, 3);
    assert!(m.get(2, 0).is_none());
    assert!(!m.set(0, 3, F(1.0)));
    assert!(m.set(1, 2, F(5.0)));
    assert_eq!(at(&m, 1, 2), 5.0);
    assert_eq!(m.size(), 6);
}

#[test]
fn matrix_new_dynamic_overflow() {
    assert!(Matrix::<F>::new_dynamic(usize::MAX, 2).is_err());
    assert!(Matrix::<F>::new_dynamic(3, 4).is_ok());
}

#[test]
fn matrix_product_and_transpose() {
    let a = mat(2, 3, &[1.0, 2.0, 3.0, 4.0, 5.0, 6.0]);
    let b = mat(3, 2, &[7.0, 8.0, 9.0, 10.0, 11.0, 12.0]);
    let c = a.product(&b);
    assert_matrix_close(&c, 2, 2, &[58.0, 64.0, 139.0, 154.0]);
    let t = a.transpose();
    assert_matrix_close(&t, 3, 2, &[1.0, 4.0, 2.0, 5.0, 3.0, 6.0]);
}

#[test]
fn matrix_dot_norm_cross() {
    let a = vector(&[1.0, 2.0, 3.0]);
    let b = vector(&[4.0, 5.0, 6.0]);
    assert_eq!(a.dot(&b).0, 32.0);
    assert_eq!(a.squared_norm().0, 14.0);
    let c = a.cross(&b);
    assert_matrix_close(&c, 3, 1, &[-3.0, 6.0, -3.0]);
    let n = vector(&[3.0, 4.0]).normalized();
    assert_matrix_close(&n, 2, 1, &[0.6, 0.8]);
}

#[test]
fn matrix_assign_shape_mismatch() {
    let mut a: Matrix<F> = Matrix::zeros(2, 2);
    let b: Matrix<F> = Matrix::zeros(3, 2);
    assert!(a.assign(&b).is_err());
    let c = mat(2, 2, &[1.0, 2.0, 3.0, 4.0]);
    assert!(a.assign(&c).is_ok());
    assert!(a.equals(&c));
}

#[test]
fn matrix_block_row_col_identity() {
    let a = mat(3, 3, &[1.0, 2.0, 3.0, 4.0, 5.0, 6.0, 7.0, 8.0, 9.0]);
    assert_matrix_close(&a.block(1, 1, 2, 2), 2, 2, &[5.0, 6.0, 8.0, 9.0]);
    assert_matrix_close(&a.row(2), 1, 3, &[7.0, 8.0, 9.0]);
    assert_matrix_close(&a.col(0), 3, 1, &[1.0, 4.0, 7.0]);
    let i: Matrix<F> = Matrix::identity(2, 3);
    assert_matrix_close(&i, 2, 3, &[1.0, 0.0, 0.0, 0.0, 1.0, 0.0]);
}

#[test]
fn matrix_elementwise_operations() {
    let a = mat(1, 2, &[1.0, 2.0]);
    let b = mat(1, 2, &[10.0, 20.0]);
    assert_matrix_close(&a.cwise_add(&b), 1, 2, &[11.0, 22.0]);
    assert_matrix_close(&b.cwise_sub(&a), 1, 2, &[9.0, 18.0]);
    assert_matrix_close(&a.scalar_mul(F(3.0)), 1, 2, &[3.0, 6.0]);
    assert_matrix_close(&mat(1, 1, &[0.0]).exp(), 1, 1, &[1.0]);
}

// ---------------------------------------------------------------- complex

#[test]
fn complex_basics() {
    let z = Complex::new(F(3.0), F(4.0));
    assert_eq!(z.norm_sq().0, 25.0);
    assert_eq!(z.norm().0, 5.0);
    let c = z.conj();
    assert_eq!(c.re.0, 3.0);
    assert_eq!(c.im.0, -4.0);
    let p = z * c;
    assert_eq!(p.re.0, 25.0);
    assert_eq!(p.im.0, 0.0);
}

// ---------------------------------------------------------------- LU

#[test]
fn lu_pivots_and_determinant() {
    let a = mat(3, 3, &[0.0, 2.0, 1.0, 1.0, 1.0, 0.0, 2.0, 1.0, 1.0]);
    let lu = PartialPivLU::new(&a).unwrap();
    // det = 0*(1-0) - 2*(1-0) + 1*(1-2) = -3
    assert!(close(lu.determinant().0, -3.0));
}

#[test]
fn lu_solve_recovers_solution() {
    let a = mat(3, 3, &[2.0, 1.0, 1.0, 4.0, -6.0, 0.0, -2.0, 7.0, 2.0]);
    let x_true = vector(&[1.0, 2.0, 3.0]);
    let b = a.product(&x_true);
    let x = a.partial_piv_lu().unwrap().solve(&b).unwrap();
    assert_matrix_close(&x, 3, 1, &[1.0, 2.0, 3.0]);
}

#[test]
fn lu_errors() {
    let a: Matrix<F> = Matrix::zeros(2, 3);
    assert_eq!(PartialPivLU::new(&a).err().unwrap(), "LU decomposition requires a square matrix");
    let sq = mat(2, 2, &[1.0, 2.0, 3.0, 4.0]);
    let lu = PartialPivLU::new(&sq).unwrap();
    let b: Matrix<F> = Matrix::zeros(3, 1);
    assert_eq!(lu.solve(&b).err().unwrap(), "Dimension mismatch in LU solve");
    let singular: Matrix<F> = Matrix::zeros(3, 3);
    assert!(PartialPivLU::new(&singular).is_ok());
}

#[test]
fn inverse_two_by_two_formula() {
    let a = mat(2, 2, &[4.0, 7.0, 2.0, 6.0]);
    let inv = a.inverse().unwrap();
    assert_matrix_close(&inv, 2, 2, &[0.6, -0.7, -0.2, 0.4]);
    let singular = mat(2, 2, &[1.0, 2.0, 2.0, 4.0]);
    assert_eq!(singular.inverse().err().unwrap(), "Matrix is singular");
    assert_eq!(mat(2, 3, &[1.0; 6]).inverse().err().unwrap(), "Inverse only defined for square matrices");
    let diag = mat(2, 2, &[2.0, 0.0, 0.0, 4.0]);
    assert_matrix_close(&diag.inverse().unwrap(), 2, 2, &[0.5, 0.0, 0.0, 0.25]);
}

#[test]
fn inverse_three_by_three() {
    let a = mat(3, 3, &[2.0, 0.0, 0.0, 0.0, 4.0, 0.0, 0.0, 0.0, 8.0]);
    let inv = a.inverse().unwrap();
    assert_matrix_close(&inv, 3, 3, &[0.5, 0.0, 0.0, 0.0, 0.25, 0.0, 0.0, 0.0, 0.125]);
}

#[test]
fn inverse_refuses_singular_matrices_of_any_order() {
    let zero: Matrix<F> = Matrix::zeros(3, 3);
    assert_eq!(zero.inverse().err().unwrap(), "Matrix is singular");
    let rank_one = mat(3, 3, &[1.0, 2.0, 3.0, 2.0, 4.0, 6.0, 3.0, 6.0, 9.0]);
    assert_eq!(rank_one.inverse().err().unwrap(), "Matrix is singular");
    let empty: Matrix<F> = Matrix::zeros(0, 0);
    assert_eq!(empty.inverse().unwrap().rows(), 0);
}

#[test]
fn get_mut_writes_one_entry() {
    let mut m: Matrix<F> = Matrix::zeros(2, 3);
    *m.get_mut(1, 2).unwrap() = F(7.0);
    assert!(m.get_mut(2, 0).is_none());
    for i in 0..2 {
        for j in 0..3 {
            assert_eq!(at(&m, i, j), if i == 1 && j == 2 { 7.0 } else { 0.0 });
        }
    }
}

#[test]
fn complex_conjugate_laws() {
    let z = Complex::new(F(1.5), F(-2.5));
    let c = z.conj();
    assert_eq!((c.conj().re.0, c.conj().im.0), (z.re.0, z.im.0));
    let p = z * c;
    assert_eq!(p.re.0, z.norm_sq().0);
    assert_eq!(p.im.0, 0.0);
    assert_eq!(c.norm_sq().0, z.norm_sq().0);
    assert_eq!((-z).norm_sq().0, z.norm_sq().0);
    assert!(z.norm_sq().0 >= 0.0);
}

// ---------------------------------------------------------------- Cholesky

#[test]
fn llt_factor_and_solve() {
    let a = mat(3, 3, &[4.0, 12.0, -16.0, 12.0, 37.0, -43.0, -16.0, -43.0, 98.0]);
    let llt = LLT::new(&a).unwrap();
    assert_matrix_close(llt.matrix_l(), 3, 3, &[2.0, 0.0, 0.0, 6.0, 1.0, 0.0, -8.0, 5.0, 3.0]);
    let b = a.product(&vector(&[1.0, -1.0, 2.0]));
    let x = llt.solve(&b).unwrap();
    assert_matrix_close(&x, 3, 1, &[1.0, -1.0, 2.0]);
}

#[test]
fn llt_rejects_indefinite_and_rectangular() {
    let a = mat(2, 2, &[1.0, 2.0, 2.0, 1.0]);
    assert!(a.llt().is_err());
    assert!(LLT::new(&mat(1, 2, &[1.0, 1.0])).is_err());
}

// ---------------------------------------------------------------- LDLT

#[test]
fn ldlt_solve_recovers_solution() {
    let a = mat(3, 3, &[4.0, 1.0, 2.0, 1.0, 5.0, 3.0, 2.0, 3.0, 6.0]);
    let ldlt = LDLT::new(&a).unwrap();
    let mut perm = ldlt.permutation().to_vec();
    perm.sort();
    assert_eq!(perm, vec![0, 1, 2]);
    let b = a.product(&vector(&[1.0, 2.0, -1.0]));
    let x = ldlt.solve(&b).unwrap();
    assert_matrix_close(&x, 3, 1, &[1.0, 2.0, -1.0]);
    assert!(ldlt.solve(&vector(&[1.0])).is_err());
}

#[test]
fn ldlt_pivots_on_largest_diagonal() {
    let a = mat(2, 2, &[1.0, 0.0, 0.0, 9.0]);
    let ldlt = a.ldlt().unwrap();
    assert_eq!(ldlt.permutation(), &[1, 0]);
    assert_eq!(ldlt.vector_d()[0].0, 9.0);
    assert_eq!(ldlt.vector_d()[1].0, 1.0);
}

// ---------------------------------------------------------------- QR

#[test]
fn qr_reconstructs_matrix() {
    let a = mat(3, 2, &[1.0, 2.0, 3.0, 4.0, 5.0, 6.0]);
    let qr = HouseholderQR::new(&a);
    let q = qr.matrix_q();
    let r = qr.matrix_r();
    assert!(close(at(&r, 1, 0), 0.0) && close(at(&r, 2, 0), 0.0) && close(at(&r, 2, 1), 0.0));
    let back = q.product(&r);
    assert_matrix_close(&back, 3, 2, &[1.0, 2.0, 3.0, 4.0, 5.0, 6.0]);
    let qtq = q.transpose().product(&q);
    assert_matrix_close(&qtq, 3, 3, &[1.0, 0.0, 0.0, 0.0, 1.0, 0.0, 0.0, 0.0, 1.0]);
}

#[test]
fn qr_solves_square_and_tall_systems() {
    let a = mat(2, 2, &[3.0, 1.0, 1.0, 2.0]);
    let x = a.householder_qr().solve(&vector(&[9.0, 8.0])).unwrap();
    assert_matrix_close(&x, 2, 1, &[2.0, 3.0]);
    // least squares fit of y = 1 + 2 t through exact points
    let tall = mat(3, 2, &[1.0, 0.0, 1.0, 1.0, 1.0, 2.0]);
    let y = vector(&[1.0, 3.0, 5.0]);
    let coeffs = tall.householder_qr().solve(&y).unwrap();
    assert_matrix_close(&coeffs, 2, 1, &[1.0, 2.0]);
}

#[test]
fn complex_qr_takes_real_square_root_of_tail_norm() {
    // The squared tail norm 1e200 is fine, but its square would overflow:
    // the norm must come from the real square root.
    let a: Matrix<C> = Matrix::from_vec(2, 1, vec![c(0.0, 0.0), c(1e100, 0.0)]).unwrap();
    let r = HouseholderQR::new(&a).matrix_r();
    let r00 = *r.get(0, 0).unwrap();
    assert_eq!(r00.re.0, -1e100);
    assert_eq!(r00.im.0, 0.0);
}

#[test]
fn qr_solve_errors() {
    let singular = mat(2, 2, &[1.0, 2.0, 0.0, 0.0]);
    assert_eq!(
        singular.householder_qr().solve(&vector(&[1.0, 1.0])).err().unwrap(),
        "QR solve failed: singular matrix (zero diagonal at 1)"
    );
    let a = mat(2, 2, &[3.0, 1.0, 1.0, 2.0]);
    assert_eq!(
        a.householder_qr().solve(&vector(&[1.0, 1.0, 1.0])).err().unwrap(),
        "Dimension mismatch in QR solve: b.rows() 3 != A.rows() 2"
    );
    let tall: Matrix<F> = Matrix::zeros(12, 3);
    let b: Matrix<F> = Matrix::zeros(105, 1);
    assert_eq!(
        tall.householder_qr().solve(&b).err().unwrap(),
        "Dimension mismatch in QR solve: b.rows() 105 != A.rows() 12"
    );
}

// ---------------------------------------------------------------- tridiagonal and eigen

#[test]
fn tridiagonalization_reconstructs_matrix() {
    let a = mat(4, 4, &[4.0, 1.0, -2.0, 2.0, 1.0, 2.0, 0.0, 1.0, -2.0, 0.0, 3.0, -2.0, 2.0, 1.0, -2.0, -1.0]);
    let tri = Tridiagonalization::new(&a).unwrap();
    let t = tri.matrix_t();
    let q = tri.matrix_q();
    assert_eq!(at(&t, 3, 0), 0.0);
    assert_eq!(at(&t, 0, 2), 0.0);
    let back = q.product(&t).product(&q.transpose());
    for i in 0..4 {
        for j in 0..4 {
            assert!((at(&back, i, j) - at(&a, i, j)).abs() < 1e-9);
        }
    }
}

#[test]
fn eigen_one_and_two() {
    let one = SelfAdjointEigenSolver::new(&mat(1, 1, &[7.0]), true).unwrap();
    assert_eq!(at(one.eigenvalues(), 0, 0), 7.0);
    assert_eq!(at(one.eigenvectors().unwrap(), 0, 0), 1.0);
    let two = SelfAdjointEigenSolver::new(&mat(2, 2, &[2.0, 1.0, 1.0, 2.0]), true).unwrap();
    assert!(close(at(two.eigenvalues(), 0, 0), 1.0));
    assert!(close(at(two.eigenvalues(), 1, 0), 3.0));
    assert_eq!(two.info(), ComputationInfo::Success);
    assert!(SelfAdjointEigenSolver::new(&mat(1, 2, &[1.0, 2.0]), false).is_err());
}

#[test]
fn eigen_three_by_three_values() {
    let a = mat(3, 3, &[2.0, 0.0, 0.0, 0.0, 3.0, 4.0, 0.0, 4.0, 9.0]);
    let values = a.eigenvalues().unwrap();
    assert!(close(at(&values, 0, 0), 1.0));
    assert!(close(at(&values, 1, 0), 2.0));
    assert!(close(at(&values, 2, 0), 11.0));
}

#[test]
fn eigen_general_sorted_with_vectors() {
    let a = mat(4, 4, &[4.0, 1.0, 0.0, 0.0, 1.0, 3.0, 1.0, 0.0, 0.0, 1.0, 2.0, 1.0, 0.0, 0.0, 1.0, 1.0]);
    let s = a.self_adjoint_eigen_solver(true).unwrap();
    assert_eq!(s.info(), ComputationInfo::Success);
    let vals = s.eigenvalues();
    for i in 0..3 {
        assert!(at(vals, i, 0) <= at(vals, i + 1, 0));
    }
    let v = s.eigenvectors().unwrap();
    for k in 0..4 {
        let col = v.col(k);
        let av = a.product(&col);
        for i in 0..4 {
            assert!((at(&av, i, 0) - at(vals, k, 0) * at(&col, i, 0)).abs() < 1e-8);
        }
    }
}

// ---------------------------------------------------------------- iterative solvers

#[test]
fn conjugate_gradient_solves_spd_system() {
    let a = mat(2, 2, &[4.0, 1.0, 1.0, 3.0]);
    let mut cg: ConjugateGradient<F> = ConjugateGradient::new();
    cg.compute(&a);
    let x = cg.solve(&vector(&[1.0, 2.0]));
    assert!((at(&x, 0, 0) - 1.0 / 11.0).abs() < 1e-9);
    assert!((at(&x, 1, 0) - 7.0 / 11.0).abs() < 1e-9);
    assert!(cg.iterations() >= 1 && cg.iterations() <= 2);
    assert!(cg.error().0 < 1e-12);
}

#[test]
fn conjugate_gradient_settings() {
    let cg: ConjugateGradient<F> = ConjugateGradient::new().with_max_iterations(0).with_tolerance(F(0.5));
    let mut cg = cg;
    cg.compute(&mat(1, 1, &[2.0]));
    let x = cg.solve_with_guess(&vector(&[4.0]), &vector(&[1.0]));
    assert_eq!(at(&x, 0, 0), 1.0);
    assert_eq!(cg.iterations(), 0);
    assert_eq!(cg.error().0, 2.0);
}

#[test]
fn bicgstab_solves_nonsymmetric_system() {
    let a = mat(2, 2, &[3.0, 1.0, -1.0, 2.0]);
    let mut solver: BiCGSTAB<F> = BiCGSTAB::new();
    solver.compute(&a);
    let x = solver.solve(&vector(&[5.0, 0.0]));
    assert!((at(&x, 0, 0) - 10.0 / 7.0).abs() < 1e-9);
    assert!((at(&x, 1, 0) - 5.0 / 7.0).abs() < 1e-9);
    assert!(solver.iterations() >= 1);
}

#[test]
fn bicgstab_returns_guess_when_residual_is_small() {
    let mut solver: BiCGSTAB<F> = BiCGSTAB::new().with_tolerance(F(1.0));
    solver.compute(&mat(1, 1, &[1.0]));
    let x = solver.solve_with_guess(&vector(&[1.0]), &vector(&[0.5]));
    assert_eq!(at(&x, 0, 0), 0.5);
    assert_eq!(solver.iterations(), 0);
}

// ---------------------------------------------------------------- geometry

#[test]
fn quaternion_rotation_and_slerp() {
    let half = std::f64::consts::FRAC_PI_4;
    let q = Quaternion::new(F(0.0), F(0.0), F(half.sin()), F(half.cos()));
    let v = q.rotate_vector(&vector(&[1.0, 0.0, 0.0]));
    assert!(close(at(&v, 0, 0), 0.0) && close(at(&v, 1, 0), 1.0) && close(at(&v, 2, 0), 0.0));
    let id = Quaternion::<F>::identity();
    let start = id.slerp(F(0.0), &q);
    assert!(close(start.w().0, 1.0));
    let end = id.slerp(F(1.0), &q);
    assert!(close(end.z().0, q.z().0) && close(end.w().0, q.w().0));
    let r = q.to_rotation_matrix();
    assert!(close(at(&r, 0, 1), -1.0));
}

#[test]
fn euler_angles_round_trip() {
    let e = EulerAngles::new(F(0.3), F(0.2), F(0.1));
    let q = e.to_quaternion();
    let m = q.to_rotation_matrix();
    let back = EulerAngles::from_rotation_matrix(&m);
    assert!((back.alpha.0 - 0.3).abs() < 1e-9);
    assert!((back.beta.0 - 0.2).abs() < 1e-9);
    assert!((back.gamma.0 - 0.1).abs() < 1e-9);
}

#[test]
fn aligned_box_extend_contains() {
    let mut b: AlignedBox<F, 2> = AlignedBox::new_empty();
    assert!(b.is_empty());
    let p = vector(&[1.0, 2.0]);
    b.extend(&p);
    assert!(b.contains(&p));
    b.extend(&vector(&[3.0, -1.0]));
    assert!(b.contains(&vector(&[2.0, 0.0])));
    assert!(!b.contains(&vector(&[4.0, 0.0])));
    assert_matrix_close(&b.sizes(), 2, 1, &[2.0, 3.0]);
    assert!(close(b.squared_distance(&vector(&[5.0, 0.0])).0, 4.0));
}

#[test]
fn ray_box_and_plane_intersections() {
    let b: AlignedBox<F, 2> = AlignedBox::new(vector(&[0.0, 0.0]), vector(&[1.0, 1.0]));
    let ray: Ray<F, 2> = Ray::new(vector(&[-1.0, 0.5]), vector(&[1.0, 0.0]));
    let (t0, t1) = b.intersection_parameter(&ray).unwrap();
    assert!(close(t0.0, 1.0) && close(t1.0, 2.0));
    assert!(b.intersects(&ray));
    let plane: Hyperplane<F, 2> = Hyperplane::new(vector(&[1.0, 0.0]), F(-2.0));
    assert!(close(ray.intersects_plane(&plane).unwrap().0, 3.0));
    assert!(close(plane.signed_distance(&vector(&[5.0, 1.0])).0, 3.0));
}

#[test]
fn translation_scaling_transform() {
    let t: Translation<F, 3> = Translation::new(vector(&[1.0, 2.0, 3.0]));
    let moved = t.apply(&vector(&[1.0, 1.0, 1.0]));
    assert_matrix_close(&moved, 3, 1, &[2.0, 3.0, 4.0]);
    assert_matrix_close(&t.inverse().apply(&moved), 3, 1, &[1.0, 1.0, 1.0]);
    let s: Scaling<F, 3> = Scaling::uniform(F(2.0));
    assert_matrix_close(&s.apply(&vector(&[1.0, 2.0, 3.0])), 3, 1, &[2.0, 4.0, 6.0]);
    let tr: Transform<F, 4, 3> = Transform::from_translation(&t);
    let p = tr.transform_point(&vector(&[0.0, 0.0, 0.0]));
    assert_matrix_close(&p, 3, 1, &[1.0, 2.0, 3.0]);
}

// ---------------------------------------------------------------- tensors, layers, expressions

#[test]
fn tensor_and_linear_layer() {
    let t: Tensor<F, 3> = Tensor::new([2, 3, 4]).unwrap();
    assert_eq!(t.data().len(), 24);
    assert!(t.to_matrix().is_err());
    let layer: Linear<F> = Linear::new(2, 1).unwrap();
    assert_eq!(layer.weight().shape().clone(), vec![1usize, 2]);
    let input: Tensor<F, 2> = Tensor::from_matrix(mat(1, 2, &[1.0, 2.0]));
    let out = layer.forward(&input).unwrap();
    assert_eq!(out.shape().clone(), vec![1usize, 1]);
    assert_eq!(out.data()[0].0, 0.0);
}

#[test]
fn jit_expression_evaluates_entrywise() {
    let a = mat(1, 2, &[1.0, 2.0]);
    let b = mat(1, 2, &[3.0, 4.0]);
    let e = Expr::MulScalar(
        Box::new(Expr::Add(Box::new(Expr::MatrixRef(&a)), Box::new(Expr::MulWise(Box::new(Expr::MatrixRef(&a)), Box::new(Expr::MatrixRef(&b)))))),
        F(2.0),
    );
    let r = e.execute();
    assert_matrix_close(&r, 1, 2, &[8.0, 20.0]);
    let mut wrong: Matrix<F> = Matrix::zeros(2, 2);
    assert!(e.execute_into(&mut wrong).is_err());
}

#[test]
fn test_matrix_fixed_creation() {
    let mut m = Matrix2::<F32>::new_fixed(2, 2);
    *m.get_mut(0, 0).unwrap() = F32(1.0);
    *m.get_mut(1, 1).unwrap() = F32(2.0);
    assert_eq!(at32(&m, 0, 0), 1.0);
    assert_eq!(at32(&m, 1, 1), 2.0);
    assert_eq!(m.rows(), 2);
    assert_eq!(m.cols(), 2);
}

#[test]
fn test_matrix_dynamic_creation() {
    let mut m = MatrixX::<F32>::new_dynamic(3, 3).unwrap();
    *m.get_mut(0, 0).unwrap() = F32(1.0);
    *m.get_mut(2, 2).unwrap() = F32(5.0);
    assert_eq!(at32(&m, 0, 0), 1.0);
    assert_eq!(at32(&m, 2, 2), 5.0);
    assert_eq!(m.rows(), 3);
    assert_eq!(m.cols(), 3);
}

#[test]
fn test_tridiagonal_decomposition() {
    let n: usize = 4;
    let val = vec![4.0, 1.0, -2.0, 2.0, 1.0, 2.0, 0.0, 1.0, -2.0, 0.0, 3.0, -2.0, 2.0, 1.0, -2.0, -1.0];
    let mut a: Matrix<F> = Matrix::new_dynamic(n, n).unwrap();
    for i in 0..n {
        for j in 0..n {
            assert!(a.set(i, j, F(val[i * n + j])));
        }
    }
    let tridiag = Tridiagonalization::new(&a).unwrap();
    let t = tridiag.matrix_t();
    let q = tridiag.matrix_q();
    for i in 0..n {
        for j in 0..n {
            if (i as isize - j as isize).abs() > 1 {
                assert!(at(&t, i, j).abs() < 1e-10, "T not tridiagonal at ({}, {})", i, j);
            }
        }
    }
    let qt = q.transpose();
    let q_qt = q.product(&qt);
    for i in 0..n {
        for j in 0..n {
            let expected = if i == j { 1.0 } else { 0.0 };
            assert!((at(&q_qt, i, j) - expected).abs() < 1e-10, "Q not orthogonal at ({}, {})", i, j);
        }
    }
    let recon = q.product(&t.product(&qt));
    for i in 0..n {
        for j in 0..n {
            assert!((at(&recon, i, j) - at(&a, i, j)).abs() < 1e-10, "reconstruction failed at ({}, {})", i, j);
        }
    }
}

#[test]
fn test_ast_fused_execution() {
    let a = Matrix::from_vec(2, 2, vec![F(1.0), F(1.0), F(1.0), F(1.0)]).unwrap();
    let b = Matrix::from_vec(2, 2, vec![F(2.0), F(2.0), F(2.0), F(2.0)]).unwrap();
    let c = Matrix::from_vec(2, 2, vec![F(3.0), F(3.0), F(3.0), F(3.0)]).unwrap();
    let expr = Expr::Sub(
        Box::new(Expr::MulScalar(Box::new(Expr::Add(Box::new(Expr::MatrixRef(&a)), Box::new(Expr::MatrixRef(&b)))), F(10.0))),
        Box::new(Expr::MatrixRef(&c)),
    );
    let mut d: Matrix<F> = Matrix::new_dynamic(2, 2).unwrap();
    expr.execute_into(&mut d).unwrap();
    assert_eq!(at(&d, 0, 0), 27.0);
    assert_eq!(at(&d, 1, 1), 27.0);
}

fn assert_orthonormal_columns(m: &Matrix<F>, cols: usize) {
    for c1 in 0..cols {
        for c2 in 0..cols {
            let mut dot = 0.0;
            for r in 0..m.rows() {
                dot += at(m, r, c1) * at(m, r, c2);
            }
            let expected = if c1 == c2 { 1.0 } else { 0.0 };
            assert!((dot - expected).abs() < 1e-9, "columns {} and {}: {}", c1, c2, dot);
        }
    }
}

#[test]
fn svd_of_diagonal_matrix_sorts_values() {
    let a = mat(2, 2, &[1.0, 0.0, 0.0, 3.0]);
    let svd = JacobiSVD::new(&a).unwrap();
    let s = svd.singular_values();
    assert_eq!(s.len(), 2);
    assert_eq!(s[0].0, 3.0);
    assert_eq!(s[1].0, 1.0);
    // the columns follow the values: the second unit vector comes first
    assert_eq!(at(svd.matrix_u(), 1, 0), 1.0);
    assert_eq!(at(svd.matrix_v(), 1, 0), 1.0);
    assert_eq!(at(svd.matrix_v(), 0, 1), 1.0);
}

#[test]
fn svd_reconstructs_square_matrix() {
    let a = mat(3, 3, &[2.0, -1.0, 0.5, 1.0, 3.0, -2.0, 0.0, 1.0, 4.0]);
    let svd = a.jacobi_svd().unwrap();
    let u = svd.matrix_u();
    let v = svd.matrix_v();
    let s = svd.singular_values();
    assert!(s[0].0 >= s[1].0 && s[1].0 >= s[2].0);
    assert_orthonormal_columns(u, 3);
    assert_orthonormal_columns(v, 3);
    for i in 0..3 {
        for j in 0..3 {
            let mut sum = 0.0;
            for k in 0..3 {
                sum += at(u, i, k) * s[k].0 * at(v, j, k);
            }
            assert!((sum - at(&a, i, j)).abs() < 1e-9);
        }
    }
}

#[test]
fn svd_refuses_wide_matrices_and_orders_values() {
    let wide = mat(1, 2, &[1.0, 2.0]);
    assert_eq!(JacobiSVD::new(&wide).err().unwrap(), "JacobiSVD requires at least as many rows as columns");
    assert_eq!(wide.jacobi_svd().err().unwrap(), "JacobiSVD requires at least as many rows as columns");
    let no_rows: Matrix<F> = Matrix::zeros(0, 3);
    assert_eq!(JacobiSVD::new(&no_rows).unwrap().singular_values().len(), 3);
    let a = mat(4, 3, &[3.0, -1.0, 0.5, 2.0, 4.0, -2.0, 0.0, 1.0, 1.0, -1.5, 0.0, 2.5]);
    let s = JacobiSVD::new(&a).unwrap().singular_values().to_vec();
    for i in 0..3 {
        assert!(s[i].0 >= 0.0);
        if i + 1 < 3 {
            assert!(s[i].0 >= s[i + 1].0);
        }
    }
}

#[test]
fn ldlt_errors() {
    let a: Matrix<F> = Matrix::zeros(2, 3);
    assert_eq!(LDLT::new(&a).err().unwrap(), "LDLT decomposition requires a square matrix");
    let sq = mat(2, 2, &[4.0, 1.0, 1.0, 3.0]);
    let ldlt = LDLT::new(&sq).unwrap();
    let b: Matrix<F> = Matrix::zeros(3, 1);
    assert_eq!(ldlt.solve(&b).err().unwrap(), "Dimension mismatch in LDLT solve");
}

#[test]
fn svd_tall_rank_deficient_completes_basis() {
    let a = mat(3, 2, &[1.0, 1.0, 1.0, 1.0, 0.0, 0.0]);
    let svd = JacobiSVD::new(&a).unwrap();
    let s = svd.singular_values();
    assert!(close(s[0].0, 2.0));
    assert!(s[1].0.abs() < 1e-12);
    let u = svd.matrix_u();
    assert_eq!(u.rows(), 3);
    assert_eq!(u.cols(), 3);
    assert_orthonormal_columns(u, 2);
    for k in 0..3 {
        assert_eq!(at(u, k, 2), 0.0);
    }
    assert_eq!(svd.matrix_v().rows(), 2);
}

#[test]
fn svd_of_empty_and_single_column() {
    let svd = JacobiSVD::new(&mat(2, 1, &[3.0, 4.0])).unwrap();
    assert_eq!(svd.singular_values()[0].0, 5.0);
    assert_eq!(at(svd.matrix_u(), 0, 0), 0.6);
    assert_eq!(at(svd.matrix_u(), 1, 0), 0.8);
    let none = JacobiSVD::new(&Matrix::<F>::zeros(0, 0)).unwrap();
    assert!(none.singular_values().is_empty());
}

fn square_from(n: usize, f: impl Fn(usize, usize) -> f64) -> Matrix<F> {
    let mut a: Matrix<F> = Matrix::new_dynamic(n, n).unwrap();
    for i in 0..n {
        for j in 0..n {
            assert!(a.set(i, j, F(f(i, j))));
        }
    }
    a
}

fn assert_orthogonal(q: &Matrix<F>, tol: f64) {
    let n = q.rows();
    for i in 0..n {
        for j in 0..n {
            let mut sum = 0.0;
            for k in 0..n {
                sum += at(q, k, i) * at(q, k, j);
            }
            let expected = if i == j { 1.0 } else { 0.0 };
            assert!((sum - expected).abs() < tol, "Q^T Q at ({}, {}): {}", i, j, sum);
        }
    }
}

fn assert_similar(a: &Matrix<F>, q: &Matrix<F>, t: &Matrix<F>, tol: f64) {
    let n = a.rows();
    for i in 0..n {
        for j in 0..n {
            let mut aq = 0.0;
            let mut qt = 0.0;
            for k in 0..n {
                aq += at(a, i, k) * at(q, k, j);
                qt += at(q, i, k) * at(t, k, j);
            }
            assert!((aq - qt).abs() < tol, "A Q vs Q T at ({}, {}): {} vs {}", i, j, aq, qt);
        }
    }
}

#[test]
fn test_hessenberg_basic() {
    let n = 4;
    let data = [4.0, 1.0, 2.0, 3.0, 1.0, 5.0, 1.0, 2.0, 2.0, 1.0, 6.0, 1.0, 3.0, 2.0, 1.0, 7.0];
    let a = square_from(n, |i, j| data[i * n + j]);
    let decomp = HessenbergDecomposition::new(&a).unwrap();
    let h = decomp.matrix_h();
    let q = decomp.matrix_q();
    assert_orthogonal(&q, 1e-10);
    // Q^T A Q = H
    for i in 0..n {
        for j in 0..n {
            let mut sum = 0.0;
            for k in 0..n {
                for l in 0..n {
                    sum += at(&q, k, i) * at(&a, k, l) * at(&q, l, j);
                }
            }
            assert!((sum - at(&h, i, j)).abs() < 1e-10, "mismatch at ({}, {})", i, j);
        }
    }
    for i in 0..n {
        for j in 0..n {
            if i > j + 1 {
                assert!(at(&h, i, j).abs() < 1e-10);
            }
        }
    }
}

#[test]
fn test_hessenberg_identity() {
    let n = 3;
    let a = square_from(n, |i, j| if i == j { 1.0 } else { 0.0 });
    let decomp = HessenbergDecomposition::new(&a).unwrap();
    let h = decomp.matrix_h();
    for i in 0..n {
        for j in 0..n {
            let expected = if i == j { 1.0 } else { 0.0 };
            assert!((at(&h, i, j) - expected).abs() < 1e-10);
        }
    }
}

#[test]
fn test_hessenberg_random_non_symmetric() {
    let n = 5;
    let a = square_from(n, |i, j| (i as f64 * 1.1 + j as f64 * 0.7 + (i * j) as f64 * 0.1).sin());
    let decomp = HessenbergDecomposition::new(&a).unwrap();
    let h = decomp.matrix_h();
    let q = decomp.matrix_q();
    assert_similar(&a, &q, &h, 1e-10);
}

#[test]
fn hessenberg_rejects_rectangular() {
    assert!(HessenbergDecomposition::new(&mat(2, 3, &[1.0, 2.0, 3.0, 4.0, 5.0, 6.0])).is_err());
}

#[test]
fn test_real_schur_basic() {
    let n = 4;
    let data = [0.35, 0.45, -0.14, -0.17, 0.09, 0.07, -0.54, 0.35, -0.44, -0.33, -0.03, 0.17, 0.25, -0.32, -0.13, 0.11];
    let a = square_from(n, |i, j| data[i * n + j]);
    let schur = RealSchur::new(&a).unwrap();
    let t = schur.matrix_t();
    let q = schur.matrix_q();
    assert_orthogonal(q, 1e-10);
    assert_similar(&a, q, t, 1e-10);
    for i in 0..n {
        for j in 0..n {
            if i > j + 1 {
                assert!(at(t, i, j).abs() < 1e-10, "T not quasi-upper triangular at ({}, {})", i, j);
            }
        }
    }
}

#[test]
fn test_real_schur_identity() {
    let n = 5;
    let a = square_from(n, |i, j| if i == j { 1.0 } else { 0.0 });
    let schur = RealSchur::new(&a).unwrap();
    let t = schur.matrix_t();
    for i in 0..n {
        for j in 0..n {
            let expected = if i == j { 1.0 } else { 0.0 };
            assert!((at(t, i, j) - expected).abs() < 1e-10);
        }
    }
}

#[test]
fn test_real_schur_random() {
    let n = 10;
    let a = square_from(n, |i, j| ((i + j) as f64 * 0.5).cos() + (i as f64 * 0.1).sin());
    let schur = RealSchur::new(&a).unwrap();
    let t = schur.matrix_t();
    let q = schur.matrix_q();
    assert_similar(&a, q, t, 1e-9);
    assert_orthogonal(q, 1e-10);
    for i in 0..n {
        for j in 0..n {
            if i > j + 1 {
                assert!(at(t, i, j).abs() < 1e-9);
            }
        }
    }
}

#[test]
fn real_schur_small_and_rectangular() {
    let a = mat(2, 2, &[0.0, -1.0, 1.0, 0.0]);
    let schur = RealSchur::new(&a).unwrap();
    assert_eq!(at(schur.matrix_t(), 1, 0), 1.0);
    assert!(RealSchur::new(&mat(1, 2, &[1.0, 2.0])).is_err());
}

#[test]
fn test_eigen_solver_eigenvectors() {
    let n = 3;
    let data = [1.0, 2.0, 3.0, 0.0, 4.0, 5.0, 0.0, 0.0, 6.0];
    let a = square_from(n, |i, j| data[i * n + j]);
    let solver = EigenSolver::new(&a, true).unwrap();
    let evs = solver.eigenvalues();
    let evecs = solver.eigenvectors().unwrap();
    for k in 0..n {
        let lambda = evs[k];
        for i in 0..n {
            let mut av = Complex::new(F(0.0), F(0.0));
            for j in 0..n {
                av = av + Complex::new(F(at(&a, i, j)), F(0.0)) * *evecs.get(j, k).unwrap();
            }
            let lv = lambda * *evecs.get(i, k).unwrap();
            assert!((av.re.0 - lv.re.0).abs() < 1e-9);
            assert!((av.im.0 - lv.im.0).abs() < 1e-9);
        }
    }
}

#[test]
fn test_eigen_solver_real() {
    let n = 3;
    let data = [2.0, 0.0, 0.0, 0.0, 3.0, 0.0, 0.0, 0.0, 1.0];
    let a = square_from(n, |i, j| data[i * n + j]);
    let solver = EigenSolver::new(&a, false).unwrap();
    let evs = solver.eigenvalues();
    let mut vals: Vec<f64> = evs.iter().map(|c| c.re.0).collect();
    vals.sort_by(|a, b| a.partial_cmp(b).unwrap());
    assert!((vals[0] - 1.0).abs() < 1e-10);
    assert!((vals[1] - 2.0).abs() < 1e-10);
    assert!((vals[2] - 3.0).abs() < 1e-10);
    assert!(solver.eigenvectors().is_none());
}

#[test]
fn test_eigen_solver_complex() {
    let a = mat(2, 2, &[0.0, -1.0, 1.0, 0.0]);
    let solver = EigenSolver::new(&a, false).unwrap();
    let evs = solver.eigenvalues();
    assert_eq!(evs.len(), 2);
    let has_pos_i = evs.iter().any(|c| c.re.0.abs() < 1e-10 && (c.im.0 - 1.0).abs() < 1e-10);
    let has_neg_i = evs.iter().any(|c| c.re.0.abs() < 1e-10 && (c.im.0 + 1.0).abs() < 1e-10);
    assert!(has_pos_i);
    assert!(has_neg_i);
}

#[test]
fn eigen_solver_complex_vectors_and_errors() {
    let a = mat(2, 2, &[0.0, -1.0, 1.0, 0.0]);
    let solver = EigenSolver::new(&a, true).unwrap();
    let evs = solver.eigenvalues();
    let v = solver.eigenvectors().unwrap();
    for k in 0..2 {
        for i in 0..2 {
            let mut av = Complex::new(F(0.0), F(0.0));
            for j in 0..2 {
                av = av + Complex::new(F(at(&a, i, j)), F(0.0)) * *v.get(j, k).unwrap();
            }
            let lv = evs[k] * *v.get(i, k).unwrap();
            assert!((av.re.0 - lv.re.0).abs() < 1e-12);
            assert!((av.im.0 - lv.im.0).abs() < 1e-12);
        }
    }
    // the second column is the conjugate of the first
    assert_eq!(v.get(0, 1).unwrap().im.0, -v.get(0, 0).unwrap().im.0);
    assert!(EigenSolver::new(&mat(1, 2, &[1.0, 2.0]), true).is_err());
}

fn spd_matrix(n: usize) -> Matrix<F> {
    // A = M M^T + n I with a fixed M
    let m = |i: usize, j: usize| ((i * 7 + j * 3) % 11) as f64 / 11.0 - 0.5;
    square_from(n, |i, j| {
        let mut s = 0.0;
        for k in 0..n {
            s += m(i, k) * m(j, k);
        }
        if i == j {
            s + n as f64
        } else {
            s
        }
    })
}

#[test]
fn llt_blocked_factor_reconstructs() {
    let n = 40;
    let a = spd_matrix(n);
    let llt = LLT::new(&a).unwrap();
    let l = llt.matrix_l();
    for i in 0..n {
        for j in 0..n {
            if i < j {
                assert_eq!(at(l, i, j), 0.0);
            }
            let mut s = 0.0;
            for k in 0..n {
                s += at(l, i, k) * at(l, j, k);
            }
            assert!((s - at(&a, i, j)).abs() < 1e-9, "L L^T at ({}, {})", i, j);
        }
    }
}

#[test]
fn llt_blocked_rejects_indefinite() {
    let n = 40;
    let a = square_from(n, |i, j| if i == j { if i == 35 { -1.0 } else { 1.0 } } else { 0.0 });
    assert!(LLT::new(&a).is_err());
}

#[test]
fn llt_inplace_solves_match_solve() {
    for &n in &[3usize, 40] {
        let a = spd_matrix(n);
        let llt = LLT::new(&a).unwrap();
        let b = square_from(n, |i, j| (i as f64 + 1.0) * if j == 0 { 1.0 } else { -0.5 });
        let expected = llt.solve(&b).unwrap();
        let mut x = b.copy();
        llt.solve_inplace_l(&mut x).unwrap();
        llt.solve_inplace_lt(&mut x).unwrap();
        for i in 0..n {
            for j in 0..n {
                assert!((at(&x, i, j) - at(&expected, i, j)).abs() < 1e-9);
            }
        }
        let mut wrong = mat(2, 1, &[1.0, 2.0]);
        if n != 2 {
            assert!(llt.solve_inplace_l(&mut wrong).is_err());
            assert!(llt.solve_inplace_lt(&mut wrong).is_err());
        }
    }
}

type C = Complex<F>;

fn c(re: f64, im: f64) -> C {
    Complex::new(F(re), F(im))
}

fn cmat(n: usize, data: &[C]) -> Matrix<C> {
    let mut a: Matrix<C> = Matrix::new_dynamic(n, n).unwrap();
    for i in 0..n {
        for j in 0..n {
            assert!(a.set(i, j, data[i * n + j]));
        }
    }
    a
}

fn cat(m: &Matrix<C>, i: usize, j: usize) -> C {
    *m.get(i, j).unwrap()
}

fn csq(z: C) -> f64 {
    z.re.0 * z.re.0 + z.im.0 * z.im.0
}

fn assert_complex_similar(a: &Matrix<C>, u: &Matrix<C>, t: &Matrix<C>, tol: f64) {
    let n = a.rows();
    for i in 0..n {
        for j in 0..n {
            let mut au = c(0.0, 0.0);
            let mut ut = c(0.0, 0.0);
            for k in 0..n {
                au = au + cat(a, i, k) * cat(u, k, j);
                ut = ut + cat(u, i, k) * cat(t, k, j);
            }
            assert!((au.re.0 - ut.re.0).abs() < tol, "real mismatch at ({}, {})", i, j);
            assert!((au.im.0 - ut.im.0).abs() < tol, "imaginary mismatch at ({}, {})", i, j);
        }
    }
}

fn assert_unitary(u: &Matrix<C>, tol: f64) {
    let n = u.rows();
    for i in 0..n {
        for j in 0..n {
            let mut sum = c(0.0, 0.0);
            for k in 0..n {
                sum = sum + cat(u, k, i).conj() * cat(u, k, j);
            }
            let expected = if i == j { 1.0 } else { 0.0 };
            assert!((sum.re.0 - expected).abs() < tol);
            assert!(sum.im.0.abs() < tol);
        }
    }
}

fn complex_sample() -> Matrix<C> {
    cmat(
        3,
        &[c(1.0, 2.0), c(2.0, -1.0), c(0.0, 1.0), c(1.0, 1.0), c(4.0, 0.0), c(2.0, 3.0), c(0.0, 0.0), c(1.0, 2.0), c(5.0, -2.0)],
    )
}

#[test]
fn test_complex_schur_basic() {
    let n = 3;
    let a = complex_sample();
    let schur = ComplexSchur::new(&a).unwrap();
    let hess = HessenbergDecomposition::new(&a).unwrap();
    let hh = hess.matrix_h();
    let hq = hess.matrix_q();
    for i in 0..n {
        for j in 0..n {
            if i > j + 1 {
                assert!(csq(cat(&hh, i, j)) < 1e-15);
            }
        }
    }
    assert_unitary(&hq, 1e-10);
    assert_complex_similar(&a, &hq, &hh, 1e-10);
    let t = schur.matrix_t();
    let u = schur.matrix_u();
    assert_complex_similar(&a, u, t, 1e-8);
    assert_unitary(u, 1e-10);
    for i in 0..n {
        for j in 0..n {
            if i > j {
                assert!(csq(cat(t, i, j)) < 1e-15);
            }
        }
    }
}

#[test]
fn test_complex_schur_2x2() {
    let a = cmat(2, &[c(1.0, 2.0), c(3.0, 4.0), c(5.0, 6.0), c(7.0, 8.0)]);
    let schur = ComplexSchur::new(&a).unwrap();
    assert_complex_similar(&a, schur.matrix_u(), schur.matrix_t(), 1e-9);
}

#[test]
fn test_complex_eigen_solver_basic() {
    let n = 3;
    let a = complex_sample();
    let solver = ComplexEigenSolver::new(&a, true).unwrap();
    let evals = solver.eigenvalues();
    let evecs = solver.eigenvectors().unwrap();
    for j in 0..n {
        let lambda = cat(evals, j, 0);
        for i in 0..n {
            let mut av = c(0.0, 0.0);
            for k in 0..n {
                av = av + cat(&a, i, k) * cat(evecs, k, j);
            }
            let lv = lambda * cat(evecs, i, j);
            assert!((av.re.0 - lv.re.0).abs() < 1e-8, "col {} row {}", j, i);
            assert!((av.im.0 - lv.im.0).abs() < 1e-8, "col {} row {}", j, i);
        }
    }
}

#[test]
fn test_complex_eigen_solver_identity() {
    let n = 3;
    let a = cmat(n, &[c(1.0, 0.0), c(0.0, 0.0), c(0.0, 0.0), c(0.0, 0.0), c(1.0, 0.0), c(0.0, 0.0), c(0.0, 0.0), c(0.0, 0.0), c(1.0, 0.0)]);
    let solver = ComplexEigenSolver::new(&a, true).unwrap();
    let evals = solver.eigenvalues();
    for j in 0..n {
        let val = cat(evals, j, 0);
        assert!((val.re.0 - 1.0).abs() < 1e-10);
        assert!(val.im.0.abs() < 1e-10);
    }
}

#[test]
fn test_complex_eigen_solver_repeated() {
    let a = cmat(2, &[c(2.0, 0.0), c(1.0, 0.0), c(0.0, 0.0), c(2.0, 0.0)]);
    let solver = ComplexEigenSolver::new(&a, true).unwrap();
    let evals = solver.eigenvalues();
    for j in 0..2 {
        assert!((cat(evals, j, 0).re.0 - 2.0).abs() < 1e-10);
    }
    assert!(ComplexEigenSolver::new(&cmat(1, &[c(3.0, 1.0)]), false).unwrap().eigenvectors().is_none());
}

fn rect_from(rows: usize, cols: usize, f: impl Fn(usize, usize) -> f64) -> Matrix<F> {
    let mut a: Matrix<F> = Matrix::new_dynamic(rows, cols).unwrap();
    for i in 0..rows {
        for j in 0..cols {
            assert!(a.set(i, j, F(f(i, j))));
        }
    }
    a
}

#[test]
fn test_bidiagonal_upper() {
    let rows = 4;
    let cols = 3;
    let a = rect_from(rows, cols, |i, j| (i as f64 + 1.0) * (j as f64 + 2.0));
    let bidiag = Bidiagonalization::new(&a).unwrap();
    let u = bidiag.matrix_u();
    let b = bidiag.matrix_b();
    let v = bidiag.matrix_v();
    for i in 0..rows {
        for j in 0..cols {
            if i != j && i + 1 != j {
                assert!(at(&b, i, j).abs() < 1e-9, "Non-zero at ({}, {}) for B", i, j);
            }
        }
    }
    let mut res = vec![vec![0.0; cols]; rows];
    for i in 0..rows {
        for j in 0..cols {
            let mut sum = 0.0;
            for k in 0..cols {
                let mut ub = 0.0;
                for l in 0..rows {
                    ub += at(&u, i, l) * at(&b, l, k);
                }
                sum += ub * at(&v, j, k);
            }
            res[i][j] = sum;
        }
    }
    for i in 0..rows {
        for j in 0..cols {
            assert!(
                (res[i][j] - at(&a, i, j)).abs() < 1e-9,
                "Mismatch at ({}, {}): {} != {}",
                i,
                j,
                res[i][j],
                at(&a, i, j)
            );
        }
    }
}

#[test]
fn test_bidiagonal_orthogonality() {
    let rows = 4;
    let cols = 3;
    let a = rect_from(rows, cols, |i, j| (i as f64 + j as f64).cos());
    let bidiag = Bidiagonalization::new(&a).unwrap();
    let u = bidiag.matrix_u();
    let _v = bidiag.matrix_v();
    assert_eq!(u.rows(), rows);
    assert_orthogonal(&u, 1e-9);
}

#[test]
fn bidiagonal_orthogonal_factors_and_wide_input() {
    let a = rect_from(5, 4, |i, j| ((i * 3 + j * 5) % 7) as f64 - 2.5);
    let bidiag = Bidiagonalization::new(&a).unwrap();
    assert_orthogonal(&bidiag.matrix_u(), 1e-9);
    assert_orthogonal(&bidiag.matrix_v(), 1e-9);
    // A wide matrix is kept as it is: B is its diagonal, V the identity.
    let w = rect_from(2, 3, |i, j| (i * 3 + j + 1) as f64);
    let wide = Bidiagonalization::new(&w).unwrap();
    let b = wide.matrix_b();
    assert_matrix_close(&b, 2, 3, &[1.0, 0.0, 0.0, 0.0, 5.0, 0.0]);
    let v = wide.matrix_v();
    assert_matrix_close(&v, 3, 3, &[1.0, 0.0, 0.0, 0.0, 1.0, 0.0, 0.0, 0.0, 1.0]);
}

#[test]
fn test_generalized_selfadjoint_eigen_basic() {
    let a = mat(2, 2, &[2.0, 1.0, 1.0, 4.0]);
    let b = mat(2, 2, &[1.0, 0.0, 0.0, 1.0]);
    let solver = GeneralizedSelfAdjointEigenSolver::new(&a, &b, false).unwrap();
    let evals = solver.eigenvalues();
    let v1 = at(evals, 0, 0);
    let v2 = at(evals, 1, 0);
    assert!((v1 - (3.0 - 2.0f64.sqrt())).abs() < 1e-6);
    assert!((v2 - (3.0 + 2.0f64.sqrt())).abs() < 1e-6);
    assert!(solver.eigenvectors().is_none());
}

#[test]
fn test_generalized_selfadjoint_eigen_general_b() {
    let n = 2;
    let a = mat(2, 2, &[10.0, 0.0, 0.0, 20.0]);
    let b = mat(2, 2, &[2.0, 0.0, 0.0, 5.0]);
    let solver = GeneralizedSelfAdjointEigenSolver::new(&a, &b, true).unwrap();
    let evals = solver.eigenvalues();
    let v1 = at(evals, 0, 0);
    let v2 = at(evals, 1, 0);
    assert!((v1 - 4.0).abs() < 1e-6);
    assert!((v2 - 5.0).abs() < 1e-6);
    let evecs = solver.eigenvectors().unwrap();
    for k in 0..n {
        let lambda = at(evals, k, 0);
        for i in 0..n {
            let mut ax = 0.0;
            let mut bx = 0.0;
            for j in 0..n {
                ax += at(&a, i, j) * at(evecs, j, k);
                bx += at(&b, i, j) * at(evecs, j, k);
            }
            assert!((ax - lambda * bx).abs() < 1e-4, "Ax = lambda Bx failed");
        }
    }
}

#[test]
fn generalized_selfadjoint_errors_and_larger_order() {
    let a = mat(2, 2, &[2.0, 1.0, 1.0, 4.0]);
    // B not square, of another order, or not positive definite.
    assert!(GeneralizedSelfAdjointEigenSolver::new(&a, &mat(2, 3, &[1.0; 6]), false).is_err());
    assert!(GeneralizedSelfAdjointEigenSolver::new(&a, &mat(1, 1, &[1.0]), false).is_err());
    assert!(GeneralizedSelfAdjointEigenSolver::new(&a, &mat(2, 2, &[1.0, 2.0, 2.0, 1.0]), false).is_err());
    // A 4 x 4 pencil: A x = lambda B x for every computed pair.
    let n = 4;
    let a = square_from(n, |i, j| if i == j { (i + 3) as f64 } else { 1.0 / ((i + j + 1) as f64) });
    let b = square_from(n, |i, j| if i == j { 4.0 } else if i + 1 == j || j + 1 == i { 1.0 } else { 0.0 });
    let solver = GeneralizedSelfAdjointEigenSolver::new(&a, &b, true).unwrap();
    let evals = solver.eigenvalues();
    let evecs = solver.eigenvectors().unwrap();
    for k in 0..n {
        if k + 1 < n {
            assert!(at(evals, k, 0) <= at(evals, k + 1, 0));
        }
        let lambda = at(evals, k, 0);
        for i in 0..n {
            let mut ax = 0.0;
            let mut bx = 0.0;
            for j in 0..n {
                ax += at(&a, i, j) * at(evecs, j, k);
                bx += at(&b, i, j) * at(evecs, j, k);
            }
            assert!((ax - lambda * bx).abs() < 1e-8);
        }
    }
}

fn ght_pair_a() -> Matrix<C> {
    cmat(
        3,
        &[c(1.0, 1.0), c(2.0, 0.0), c(0.0, 1.0), c(0.0, 0.5), c(3.0, 2.0), c(1.0, -1.0), c(1.0, 0.0), c(1.0, 1.0), c(2.0, 2.0)],
    )
}

fn ght_pair_b() -> Matrix<C> {
    cmat(
        3,
        &[c(5.0, 0.0), c(1.0, 1.0), c(0.0, 0.0), c(1.0, -1.0), c(4.0, 2.0), c(2.0, 1.0), c(0.0, 1.0), c(0.0, 0.0), c(3.0, -1.0)],
    )
}

// X Z = Q^* Y for square complex matrices.
fn assert_parity(x: &Matrix<C>, z: &Matrix<C>, q: &Matrix<C>, y: &Matrix<C>, what: &str) {
    let n = x.rows();
    for i in 0..n {
        for j in 0..n {
            let mut xz = c(0.0, 0.0);
            let mut qy = c(0.0, 0.0);
            for k in 0..n {
                xz = xz + cat(x, i, k) * cat(z, k, j);
                qy = qy + cat(q, k, i).conj() * cat(y, k, j);
            }
            assert!((xz.re.0 - qy.re.0).abs() < 1e-10, "{} parity failure at ({}, {})", what, i, j);
            assert!((xz.im.0 - qy.im.0).abs() < 1e-10, "{} parity failure at ({}, {})", what, i, j);
        }
    }
}

#[test]
fn test_ght_basic() {
    let n = 3;
    let a = ght_pair_a();
    let b = ght_pair_b();
    let ght = GeneralizedHessenbergTriangular::new(&a, &b).unwrap();
    let h = ght.matrix_h();
    let r = ght.matrix_r();
    let q = ght.matrix_q();
    let z = ght.matrix_z();
    assert_parity(&a, z, q, h, "A");
    assert_parity(&b, z, q, r, "B");
    for i in 0..n {
        for j in 0..n {
            if i > j + 1 {
                assert!(csq(cat(h, i, j)) < 1e-20, "H is not Hessenberg at ({}, {})", i, j);
            }
            if i > j {
                assert!(csq(cat(r, i, j)) < 1e-20, "R is not triangular at ({}, {})", i, j);
            }
        }
    }
}

#[test]
fn ght_unitary_factors_and_errors() {
    let a = ght_pair_a();
    let b = ght_pair_b();
    let ght = GeneralizedHessenbergTriangular::new(&a, &b).unwrap();
    assert_unitary(ght.matrix_q(), 1e-10);
    assert_unitary(ght.matrix_z(), 1e-10);
    let two: Matrix<C> = Matrix::zeros(2, 2);
    assert!(GeneralizedHessenbergTriangular::new(&a, &two).is_err());
    let wide: Matrix<C> = Matrix::zeros(3, 2);
    assert!(GeneralizedHessenbergTriangular::new(&wide, &wide).is_err());
}

#[test]
fn test_generalized_eigen_solver_basic() {
    let a = cmat(2, &[c(2.0, 0.0), c(1.0, 0.0), c(0.0, 0.0), c(4.0, 0.0)]);
    let b = cmat(2, &[c(1.0, 0.0), c(0.0, 0.0), c(0.0, 0.0), c(1.0, 0.0)]);
    let solver = GeneralizedEigenSolver::new(&a, &b, false).unwrap();
    let evals = solver.eigenvalues();
    let mut vals = [cat(evals, 0, 0).re.0, cat(evals, 1, 0).re.0];
    vals.sort_by(|x, y| x.partial_cmp(y).unwrap());
    assert!((vals[0] - 2.0).abs() < 1e-10);
    assert!((vals[1] - 4.0).abs() < 1e-10);
    assert!(solver.eigenvectors().is_none());
}

fn assert_generalized_pairs(a: &Matrix<C>, b: &Matrix<C>, solver: &GeneralizedEigenSolver<F>, tol: f64) {
    let n = a.rows();
    let evals = solver.eigenvalues();
    let evecs = solver.eigenvectors().unwrap();
    for k in 0..n {
        let lambda = cat(evals, k, 0);
        for i in 0..n {
            let mut ax = c(0.0, 0.0);
            let mut bx = c(0.0, 0.0);
            for j in 0..n {
                ax = ax + cat(a, i, j) * cat(evecs, j, k);
                bx = bx + cat(b, i, j) * cat(evecs, j, k);
            }
            let lbx = lambda * bx;
            assert!((ax.re.0 - lbx.re.0).abs() < tol, "A*x = lambda*B*x failure at row {} for eigenvalue {}", i, k);
            assert!((ax.im.0 - lbx.im.0).abs() < tol, "A*x = lambda*B*x failure at row {} for eigenvalue {}", i, k);
        }
    }
}

#[test]
fn test_generalized_eigen_solver_eigenvectors() {
    let a = cmat(
        3,
        &[c(1.0, 1.0), c(2.0, 0.0), c(0.0, 1.0), c(0.0, 0.0), c(3.0, 2.0), c(1.0, -1.0), c(0.0, 0.0), c(0.0, 0.0), c(2.0, 2.0)],
    );
    let b = cmat(
        3,
        &[c(5.0, 0.0), c(1.0, 1.0), c(0.0, 0.0), c(0.0, 0.0), c(4.0, 2.0), c(2.0, 1.0), c(0.0, 0.0), c(0.0, 0.0), c(3.0, -1.0)],
    );
    let solver = GeneralizedEigenSolver::new(&a, &b, true).unwrap();
    assert_generalized_pairs(&a, &b, &solver, 1e-9);
}

#[test]
fn test_generalized_eigen_solver_random() {
    let n = 3;
    let a = cmat(
        3,
        &[c(1.0, 1.0), c(2.0, 0.0), c(0.0, 1.0), c(0.5, 0.5), c(3.0, 2.0), c(1.0, -1.0), c(1.0, 0.0), c(1.0, 1.0), c(2.0, 2.0)],
    );
    let b = cmat(
        3,
        &[c(5.0, 0.0), c(1.0, 1.0), c(0.0, 0.0), c(1.0, -1.0), c(4.0, 2.0), c(2.0, 1.0), c(3.0, 0.0), c(1.0, 0.0), c(5.0, -1.0)],
    );
    let solver = GeneralizedEigenSolver::new(&a, &b, false).unwrap();
    let evals = solver.eigenvalues();
    for k in 0..n {
        let lambda = cat(evals, k, 0);
        let mut char_mat: Matrix<C> = Matrix::new_dynamic(n, n).unwrap();
        for i in 0..n {
            for j in 0..n {
                assert!(char_mat.set(i, j, cat(&a, i, j) - lambda * cat(&b, i, j)));
            }
        }
        let lu = char_mat.partial_piv_lu();
        assert!(lu.is_ok(), "LU failed for lambda {}", k);
        let det = lu.unwrap().determinant();
        assert!(det.norm().0 < 1e-7, "det(A - lambda B) = {} is too large for lambda {}", det.norm().0, k);
    }
}

#[test]
fn generalized_eigen_solver_random_pairs_and_errors() {
    let a = ght_pair_a();
    let b = ght_pair_b();
    let solver = GeneralizedEigenSolver::new(&a, &b, true).unwrap();
    assert_generalized_pairs(&a, &b, &solver, 1e-8);
    let two: Matrix<C> = Matrix::zeros(2, 2);
    assert!(GeneralizedEigenSolver::new(&a, &two, false).is_err());
    // A singular B gives the marker value for the infinite eigenvalue.
    let ones = cmat(2, &[c(1.0, 0.0), c(0.0, 0.0), c(0.0, 0.0), c(2.0, 0.0)]);
    let singular = cmat(2, &[c(1.0, 0.0), c(0.0, 0.0), c(0.0, 0.0), c(0.0, 0.0)]);
    let s = GeneralizedEigenSolver::new(&ones, &singular, false).unwrap();
    let values = [cat(s.eigenvalues(), 0, 0).re.0, cat(s.eigenvalues(), 1, 0).re.0];
    assert!(values.contains(&1e100));
    assert!(values.iter().any(|v| (v - 1.0).abs() < 1e-12));
}

#[test]
fn eigen_two_by_two_vectors_follow_values() {
    let cases: [[f64; 4]; 6] = [
        [2.0, 1.0, 1.0, 4.0],
        [4.0, 1.0, 1.0, 2.0],
        [2.0, -1.0, -1.0, 4.0],
        [5.0, 0.0, 0.0, 4.0],
        [3.0, 0.0, 0.0, 7.0],
        [3.0, 2.0, 2.0, 3.0],
    ];
    for data in cases.iter() {
        let m = mat(2, 2, data);
        let s = SelfAdjointEigenSolver::new(&m, true).unwrap();
        let vals = s.eigenvalues();
        let vecs = s.eigenvectors().unwrap();
        assert!(at(vals, 0, 0) <= at(vals, 1, 0));
        for k in 0..2 {
            let l = at(vals, k, 0);
            for i in 0..2 {
                let mut av = 0.0;
                for j in 0..2 {
                    av += at(&m, i, j) * at(vecs, j, k);
                }
                assert!((av - l * at(vecs, i, k)).abs() < 1e-12, "case {:?} column {}", data, k);
            }
        }
    }
}

fn bdc_reconstruction_error(a: &Matrix<F>) -> f64 {
    let rows = a.rows();
    let cols = a.cols();
    let svd = BDCSVD::new(a).unwrap();
    let u = svd.matrix_u();
    let v = svd.matrix_v();
    let s = svd.singular_values();
    assert_eq!(s.len(), cols);
    let mut worst: f64 = 0.0;
    for i in 0..rows {
        for j in 0..cols {
            let mut sum = 0.0;
            for k in 0..cols {
                sum += at(u, i, k) * s[k].0 * at(v, j, k);
            }
            let diff = (sum - at(a, i, j)).abs();
            if diff > worst {
                worst = diff;
            }
        }
    }
    worst
}

#[test]
fn test_bdc_svd_basic() {
    let rows = 4;
    let cols = 4;
    let mut a: Matrix<F32> = Matrix::new_dynamic(rows, cols).unwrap();
    assert!(a.set(0, 0, F32(1.0)));
    assert!(a.set(0, 1, F32(2.0)));
    assert!(a.set(1, 0, F32(3.0)));
    assert!(a.set(1, 1, F32(4.0)));
    assert!(a.set(2, 2, F32(5.0)));
    assert!(a.set(3, 3, F32(6.0)));
    let svd = BDCSVD::new(&a).unwrap();
    let u = svd.matrix_u();
    let v = svd.matrix_v();
    let s_vals = svd.singular_values();
    for i in 0..rows {
        for j in 0..cols {
            let mut recon: f32 = 0.0;
            for k in 0..cols {
                recon += at32(u, i, k) * s_vals[k].0 * at32(v, j, k);
            }
            let diff = (recon - at32(&a, i, j)).abs();
            assert!(diff < 1e-4, "Mismatch at {},{}: orig {}, recon {}", i, j, at32(&a, i, j), recon);
        }
    }
}

#[test]
fn bdc_svd_tall_and_split_inputs() {
    // A tall matrix, and a bidiagonal one with a zero superdiagonal entry
    // (split into two blocks).
    let tall = rect_from(6, 3, |i, j| ((i + 2 * j) % 5) as f64 - 1.5);
    assert!(bdc_reconstruction_error(&tall) < 1e-9);
    let split = rect_from(4, 4, |i, j| if i == j { (i + 1) as f64 } else if j == i + 1 && i != 1 { 0.5 } else { 0.0 });
    assert!(bdc_reconstruction_error(&split) < 1e-9);
    let svd = BDCSVD::new(&split).unwrap();
    assert_orthogonal(svd.matrix_u(), 1e-9);
    assert_orthogonal(svd.matrix_v(), 1e-9);
    let wide = rect_from(2, 3, |i, j| (i + j) as f64);
    assert_eq!(BDCSVD::new(&wide).err().unwrap(), "BDCSVD requires at least as many rows as columns");
}

#[test]
fn bdc_svd_large_block_values() {
    // Order 36: the bidiagonal block goes through B^T B and the tridiagonal
    // divide and conquer; the singular values agree with the Jacobi SVD.
    let n = 36;
    let a = rect_from(n, n, |i, j| if i == j { 2.0 + (i % 7) as f64 } else if j == i + 1 { 1.0 } else { 0.0 });
    let svd = BDCSVD::new(&a).unwrap();
    let mut s: Vec<f64> = svd.singular_values().iter().map(|x| x.0).collect();
    s.sort_by(|x, y| x.partial_cmp(y).unwrap());
    let jac = JacobiSVD::new(&a).unwrap();
    let mut t: Vec<f64> = jac.singular_values().iter().map(|x| x.0).collect();
    t.sort_by(|x, y| x.partial_cmp(y).unwrap());
    for k in 0..n {
        assert!((s[k] - t[k]).abs() < 1e-6, "singular value {}: {} vs {}", k, s[k], t[k]);
    }
    assert_orthogonal(svd.matrix_v(), 1e-6);
}
