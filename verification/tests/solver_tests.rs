//! Banded, tensor and Poisson solvers, and the time-loop decisions.
use ndspectral::bases::composite::{CompositeChebyshev, StencilKind};
use ndspectral::bases::fourier::FourierR2c;
use ndspectral::integrate::{integrate_decision, StopReason};
use ndspectral::linalg::Matrix;
use ndspectral::rational::Rational;
use ndspectral::solver::fdma::Fdma;
use ndspectral::solver::fdma_tensor::FdmaTensor;
use ndspectral::solver::poisson::Poisson;

const PI: f64 = std::f64::consts::PI;

fn q(num: i64, den: i64) -> Rational {
    Rational::new(num, den).unwrap()
}

fn qi(n: i64) -> Rational {
    Rational::from_i64(n)
}

fn qf(x: f64) -> Rational {
    let den: i64 = 1_000_000;
    Rational::new((x * den as f64).round() as i64, den).unwrap()
}

fn to_f64(r: &Rational) -> f64 {
    r.numer() as f64 / r.denom() as f64
}

fn approx_vec(result: &Vec<Rational>, expected: &[f64]) {
    assert_eq!(result.len(), expected.len());
    for (r, e) in result.iter().zip(expected.iter()) {
        let got = to_f64(r);
        if (got - e).abs() > 1e-3 {
            panic!("large difference of values, got {} expected {}", got, e);
        }
    }
}

fn dct_matrix(n: usize) -> Matrix {
    let m = (n - 1) as f64;
    let mut rows: Vec<Vec<Rational>> = Vec::new();
    for k in 0..n {
        let mut row: Vec<Rational> = Vec::new();
        for j in 0..n {
            if j == 0 {
                row.push(qi(1));
            } else if j == n - 1 {
                row.push(qi(if k % 2 == 0 { 1 } else { -1 }));
            } else {
                row.push(qf(2.0 * (PI * (j * k) as f64 / m).cos()));
            }
        }
        rows.push(row);
    }
    Matrix::from_rows(n, n, rows).unwrap()
}

fn nodes(n: usize) -> Vec<Rational> {
    let m = (n - 1) as f64;
    (0..n).map(|k| qf(-(PI * (m - 2.0 * k as f64) / (2.0 * m)).sin())).collect()
}

fn dirichlet(n: usize) -> CompositeChebyshev {
    CompositeChebyshev::new(StencilKind::Dirichlet, n, nodes(n), dct_matrix(n))
}

/// The four-diagonal test matrix: diagonals 0.5 j, 10 j, 1.5 j, 2.5 j
/// at offsets 0, -2, 2, 4 for row j (one-based).
fn test_matrix(nx: usize) -> Matrix {
    let mut rows: Vec<Vec<Rational>> = Vec::new();
    for i in 0..nx {
        let j = (i + 1) as i64;
        let mut row: Vec<Rational> = Vec::new();
        for c in 0..nx {
            if c == i {
                row.push(q(j, 2));
            } else if i >= 2 && c == i - 2 {
                row.push(qi(10 * j));
            } else if c == i + 2 {
                row.push(q(3 * j, 2));
            } else if c == i + 4 {
                row.push(q(5 * j, 2));
            } else {
                row.push(qi(0));
            }
        }
        rows.push(row);
    }
    Matrix::from_rows(nx, nx, rows).unwrap()
}

#[test]
fn test_tensor1d() {
    let nx = 6usize;
    let data: Vec<Rational> = (0..nx).map(|i| qi(i as i64)).collect();
    let matrix = test_matrix(nx);
    let solver = FdmaTensor::from_matrix_1d(&matrix).unwrap();
    let result = solver.solve_1d(&data).unwrap();
    let recover = matrix.matvec(&result).unwrap();
    let exp: Vec<f64> = data.iter().map(to_f64).collect();
    approx_vec(&recover, &exp);
}

#[test]
fn test_poisson1d() {
    let nx = 8usize;
    let base = dirichlet(nx);
    let poisson = Poisson::from_composite_1d(&base, &qi(1)).unwrap();
    let b: Vec<Rational> = (0..nx).map(|i| qi(i as i64 + 1)).collect();
    let x = poisson.solve_1d(&b).unwrap();
    approx_vec(&x, &[0.1042, 0.0809, 0.0625, 0.0393, -0.0417, -0.0357]);
}

#[test]
fn test_poisson2d_fourier_cheb() {
    // Fourier axis (diagonal) times composite Chebyshev axis. Only the
    // assembly is checked here: the perturbed zero mode's eigenvalue
    // (magnitude 1/10^10) drives the exact elimination's denominators
    // past the 64-bit range, so a full solve of this singular problem
    // reports failure by design; the solvable two-axis path is checked
    // value by value in test_poisson2d_composite_solve.
    let nx = 8usize;
    let ny = 8usize;
    let fx = FourierR2c::new(nx);
    let by = dirichlet(ny);
    let poisson = Poisson::from_fourier_composite_2d(&fx, &by, &qi(1), &qi(1)).unwrap();
    // The zero wavenumber is singular and gets the fixed perturbation.
    match &poisson.solver {
        FdmaTensor::Rank2 { singular, lam, .. } => {
            assert!(*singular);
            assert!(to_f64(&lam[0]) < 0.0);
            assert_eq!(lam[1].numer(), -1);
            assert_eq!(lam[1].denom(), 1);
        },
        _ => panic!("expected a two-axis solver"),
    }
    let _ = ny;
}

/// The pseudo-inverse `I_2 B2` of the second derivative, as the library
/// assembles it: rows for modes `k = 2..`, columns above mode `n - 3`
/// empty.
fn pinv_rows(n: usize) -> Matrix {
    let mut rows: Vec<Vec<Rational>> = Vec::new();
    for i in 0..n - 2 {
        let k = (i + 2) as i64;
        let mut row: Vec<Rational> = Vec::new();
        for j in 0..n {
            if j == i {
                row.push(q(if i == 0 { 2 } else { 1 }, 4 * k * (k - 1)));
            } else if j == i + 2 && j + 3 <= n {
                row.push(q(-1, 2 * (k * k - 1)));
            } else if j == i + 4 && j + 3 <= n {
                row.push(q(1, 4 * k * (k + 1)));
            } else {
                row.push(qi(0));
            }
        }
        rows.push(row);
    }
    Matrix::from_rows(n - 2, n, rows).unwrap()
}

/// The dense Dirichlet stencil of parent size `n`.
fn stencil_dense(n: usize) -> Matrix {
    let m = n - 2;
    let mut rows: Vec<Vec<Rational>> = Vec::new();
    for i in 0..n {
        let mut row: Vec<Rational> = Vec::new();
        for j in 0..m {
            if i == j {
                row.push(qi(1));
            } else if i == j + 2 {
                row.push(qi(-1));
            } else {
                row.push(qi(0));
            }
        }
        rows.push(row);
    }
    Matrix::from_rows(n, m, rows).unwrap()
}

#[test]
fn test_poisson2d_composite_solve() {
    // Two composite Chebyshev axes; the first axis's eigendecomposition
    // enters as data. Unit transforms and integer eigenvalues keep the
    // whole solve exact, so the per-mode systems can be checked value by
    // value: (A + lam_k C) y_k must equal the pre-multiplied right-hand
    // side exactly.
    let nx = 8usize;
    let ny = 8usize;
    let bx = dirichlet(nx);
    let by = dirichlet(ny);
    let m = nx - 2;
    let lam: Vec<Rational> = (0..m).map(|k| qi(-(k as i64) - 1)).collect();
    let eye_rows: Vec<Vec<Rational>> = (0..m)
        .map(|i| (0..m).map(|j| qi(if i == j { 1 } else { 0 })).collect())
        .collect();
    let fwd = Matrix::from_rows(m, m, eye_rows.clone()).unwrap();
    let bwd = Matrix::from_rows(m, m, eye_rows).unwrap();
    let poisson =
        Poisson::from_composite_composite_2d(&bx, &by, &qi(1), lam, fwd, bwd).unwrap();
    let rows: Vec<Vec<Rational>> = (0..nx)
        .map(|k| (0..ny).map(|j| qi(((k + j) % 3) as i64)).collect())
        .collect();
    let input = Matrix::from_rows(nx, ny, rows).unwrap();
    let out = poisson.solve_2d(&input).unwrap();
    assert_eq!(out.rows, m);
    assert_eq!(out.cols, ny - 2);
    // Recompute the pre-multiplied right-hand side independently.
    let mvx = pinv_rows(nx);
    let mvy = pinv_rows(ny);
    let mid = mvx.matmul(&input).unwrap();
    let rhs = mvy.matmul(&mid.transpose()).unwrap().transpose();
    // The Dirichlet left-hand operators of the y axis.
    let my = ny - 2;
    let mut a_rows: Vec<Vec<Rational>> = Vec::new();
    for i in 0..my {
        let mut row: Vec<Rational> = Vec::new();
        for j in 0..my {
            if j == i {
                row.push(qi(-1));
            } else if j == i + 2 {
                row.push(qi(1));
            } else {
                row.push(qi(0));
            }
        }
        a_rows.push(row);
    }
    let a = Matrix::from_rows(my, my, a_rows).unwrap();
    let c = pinv_rows(ny).matmul(&stencil_dense(ny)).unwrap();
    // With identity transforms, row k of the output is the mode-k
    // solution; its banded system holds exactly.
    for k in 0..m {
        let lam_k = qi(-(k as i64) - 1);
        for i in 0..my {
            let mut lhs = qi(0);
            for j in 0..my {
                let coeff = a.get(i, j).add(&lam_k.mul(&c.get(i, j)).unwrap()).unwrap();
                lhs = lhs.add(&coeff.mul(&out.get(k, j)).unwrap()).unwrap();
            }
            assert!(lhs.eq_rat(&rhs.get(k, i)));
        }
    }
}

#[test]
fn test_poisson2d_complex_parts() {
    // A complex right-hand side with equal real and imaginary parts:
    // both components must reproduce the real solve exactly.
    let nx = 8usize;
    let ny = 8usize;
    let bx = dirichlet(nx);
    let by = dirichlet(ny);
    let m = nx - 2;
    let lam: Vec<Rational> = (0..m).map(|k| qi(-(k as i64) - 1)).collect();
    let eye_rows: Vec<Vec<Rational>> = (0..m)
        .map(|i| (0..m).map(|j| qi(if i == j { 1 } else { 0 })).collect())
        .collect();
    let fwd = Matrix::from_rows(m, m, eye_rows.clone()).unwrap();
    let bwd = Matrix::from_rows(m, m, eye_rows).unwrap();
    let poisson =
        Poisson::from_composite_composite_2d(&bx, &by, &qi(1), lam, fwd, bwd).unwrap();
    let rows: Vec<Vec<Rational>> = (0..nx)
        .map(|k| (0..ny).map(|j| qi(((k * j) % 5) as i64)).collect())
        .collect();
    let re = Matrix::from_rows(nx, ny, rows.clone()).unwrap();
    let im = Matrix::from_rows(nx, ny, rows).unwrap();
    let (xr, xi) = poisson.solve_2d_parts(&re, &im).unwrap();
    let plain = poisson.solve_2d(&re).unwrap();
    for k in 0..m {
        for j in 0..ny - 2 {
            assert!(xr.get(k, j).eq_rat(&plain.get(k, j)));
            assert!(xi.get(k, j).eq_rat(&plain.get(k, j)));
        }
    }
}

#[test]
fn test_fdma_add_scaled() {
    let nx = 6usize;
    let a = Fdma::from_matrix(&test_matrix(nx)).unwrap();
    let c = Fdma::from_matrix(&test_matrix(nx)).unwrap();
    // A + 1*C doubles every band of the test matrix.
    let mut combined = a.add_scaled(&qi(1), &c).unwrap();
    assert!(combined.sweep());
    let rhs: Vec<Rational> = (0..nx).map(|i| qi(i as i64)).collect();
    let x = combined.solve(&rhs).unwrap();
    // 2 M x = rhs, so M x = rhs / 2.
    let recover = test_matrix(nx).matvec(&x).unwrap();
    let exp: Vec<f64> = rhs.iter().map(|v| to_f64(v) / 2.0).collect();
    approx_vec(&recover, &exp);
}

#[test]
fn test_fdma_rejects_dense_matrix() {
    // An entry outside the four diagonals makes the extraction fail.
    let n = 6usize;
    let mut rows: Vec<Vec<Rational>> = (0..n)
        .map(|i| (0..n).map(|j| if i == j { qi(1) } else { qi(0) }).collect())
        .collect();
    rows[0][1] = qi(5);
    let m = Matrix::from_rows(n, n, rows).unwrap();
    assert!(Fdma::from_matrix(&m).is_none());
}

#[test]
fn test_fourier_lap_diag() {
    let fx = FourierR2c::new(8);
    assert_eq!(fx.len_phys(), 8);
    assert_eq!(fx.len_spec(), 5);
    let lap = fx.lap_diag();
    approx_vec(&lap, &[0.0, -1.0, -4.0, -9.0, -16.0]);
}

#[test]
fn test_integrate_decision_limits() {
    // Time limit reached: time + eps >= max_time.
    let d = integrate_decision(
        &qi(10),
        &q(1, 10),
        &q(1, 1000),
        &qi(10),
        5,
        100,
        None,
        false,
    )
    .unwrap();
    assert!(!d.save);
    assert!(matches!(d.stop, Some(StopReason::TimeLimit)));
    // Step limit.
    let d = integrate_decision(
        &qi(1),
        &q(1, 10),
        &q(1, 1000),
        &qi(10),
        100,
        100,
        None,
        false,
    )
    .unwrap();
    assert!(matches!(d.stop, Some(StopReason::StepLimit)));
    // Exit predicate.
    let d = integrate_decision(
        &qi(1),
        &q(1, 10),
        &q(1, 1000),
        &qi(10),
        5,
        100,
        None,
        true,
    )
    .unwrap();
    assert!(matches!(d.stop, Some(StopReason::ExitCondition)));
    // Nothing due: keep going.
    let d = integrate_decision(
        &qi(1),
        &q(1, 10),
        &q(1, 1000),
        &qi(10),
        5,
        100,
        None,
        false,
    )
    .unwrap();
    assert!(d.stop.is_none());
}

#[test]
fn test_integrate_decision_save() {
    // time = 2.0, interval 0.5: exactly on the boundary, a write is due.
    let save = Some(q(1, 2));
    let d = integrate_decision(
        &qi(2),
        &q(1, 10),
        &q(1, 1000),
        &qi(10),
        5,
        100,
        save.as_ref(),
        false,
    )
    .unwrap();
    assert!(d.save);
    // time = 2.3, interval 0.5: far from the boundary, no write.
    let d = integrate_decision(
        &q(23, 10),
        &q(1, 10),
        &q(1, 1000),
        &qi(10),
        5,
        100,
        save.as_ref(),
        false,
    )
    .unwrap();
    assert!(!d.save);
}

#[test]
fn test_fdma_sweep_singular() {
    // An all-zero main diagonal has no usable pivot: the sweep reports
    // failure instead of dividing by zero.
    let n = 6usize;
    let low2: Vec<Rational> = (0..n - 2).map(|_| qi(1)).collect();
    let diag: Vec<Rational> = (0..n).map(|_| qi(0)).collect();
    let up2: Vec<Rational> = (0..n - 2).map(|_| qi(1)).collect();
    let up4: Vec<Rational> = (0..n - 4).map(|_| qi(1)).collect();
    let mut f = Fdma::from_bands(low2, diag, up2, up4);
    assert!(!f.sweep());
}
