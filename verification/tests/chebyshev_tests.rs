//! Chebyshev basis: transforms, differentiation and the stencil.
use ndspectral::bases::chebyshev::{Chebyshev, StencilChebyshev};
use ndspectral::linalg::Matrix;
use ndspectral::rational::Rational;

const PI: f64 = std::f64::consts::PI;

fn q(num: i64, den: i64) -> Rational {
    Rational::new(num, den).unwrap()
}

fn qi(n: i64) -> Rational {
    Rational::from_i64(n)
}

fn qf(x: f64) -> Rational {
    let den: i64 = 1_000_000;
    Rational::new((x * den as f64).round() as i64, den).unwrap()
}

fn to_f64(r: &Rational) -> f64 {
    r.numer() as f64 / r.denom() as f64
}

fn approx_vec(result: &Vec<Rational>, expected: &[f64]) {
    assert_eq!(result.len(), expected.len());
    for (r, e) in result.iter().zip(expected.iter()) {
        let got = to_f64(r);
        if (got - e).abs() > 1e-3 {
            panic!("large difference of values, got {} expected {}", got, e);
        }
    }
}

/// Cosine table of the type-I discrete cosine transform of size n:
/// row k is [1, 2 cos(pi j k / (n-1)) ..., (-1)^k].
fn dct_matrix(n: usize) -> Matrix {
    let m = (n - 1) as f64;
    let mut rows: Vec<Vec<Rational>> = Vec::new();
    for k in 0..n {
        let mut row: Vec<Rational> = Vec::new();
        for j in 0..n {
            if j == 0 {
                row.push(qi(1));
            } else if j == n - 1 {
                row.push(qi(if k % 2 == 0 { 1 } else { -1 }));
            } else {
                row.push(qf(2.0 * (PI * (j * k) as f64 / m).cos()));
            }
        }
        rows.push(row);
    }
    Matrix::from_rows(n, n, rows).unwrap()
}

/// Chebyshev points of the second kind.
fn nodes(n: usize) -> Vec<Rational> {
    let m = (n - 1) as f64;
    (0..n).map(|k| qf(-(PI * (m - 2.0 * k as f64) / (2.0 * m)).sin())).collect()
}

fn cheby(n: usize) -> Chebyshev {
    Chebyshev::new(n, nodes(n), dct_matrix(n))
}

#[test]
fn test_cheby_differentiate() {
    let (nx, ny) = (6usize, 4usize);
    // Axis 0: differentiate each column of the 6 x 4 array 0..24.
    let expected0: [[f64; 4]; 6] = [
        [140.0, 149.0, 158.0, 167.0],
        [160.0, 172.0, 184.0, 196.0],
        [272.0, 288.0, 304.0, 320.0],
        [128.0, 136.0, 144.0, 152.0],
        [200.0, 210.0, 220.0, 230.0],
        [0.0, 0.0, 0.0, 0.0],
    ];
    for j in 0..ny {
        let lane: Vec<Rational> = (0..nx).map(|i| qi((i * ny + j) as i64)).collect();
        let out = Chebyshev::differentiate(&lane, 1).unwrap();
        let exp: Vec<f64> = (0..nx).map(|i| expected0[i][j]).collect();
        approx_vec(&out, &exp);
    }
    // Axis 1: differentiate each row.
    let expected1: [[f64; 4]; 6] = [
        [10.0, 8.0, 18.0, 0.0],
        [26.0, 24.0, 42.0, 0.0],
        [42.0, 40.0, 66.0, 0.0],
        [58.0, 56.0, 90.0, 0.0],
        [74.0, 72.0, 114.0, 0.0],
        [90.0, 88.0, 138.0, 0.0],
    ];
    for i in 0..nx {
        let lane: Vec<Rational> = (0..ny).map(|j| qi((i * ny + j) as i64)).collect();
        let out = Chebyshev::differentiate(&lane, 1).unwrap();
        let exp: Vec<f64> = (0..ny).map(|j| expected1[i][j]).collect();
        approx_vec(&out, &exp);
    }
}

#[test]
fn test_cheby_forward() {
    let (nx, ny) = (6usize, 4usize);
    let cheb6 = cheby(nx);
    let expected0: [[f64; 4]; 6] = [
        [10.0, 11.0, 12.0, 13.0],
        [8.3777, 8.3777, 8.3777, 8.3777],
        [0.0, 0.0, 0.0, 0.0],
        [1.2222, 1.2222, 1.2222, 1.2222],
        [0.0, 0.0, 0.0, 0.0],
        [0.4, 0.4, 0.4, 0.4],
    ];
    for j in 0..ny {
        let lane: Vec<Rational> = (0..nx).map(|i| qi((i * ny + j) as i64)).collect();
        let out = cheb6.forward(&lane).unwrap();
        let exp: Vec<f64> = (0..nx).map(|i| expected0[i][j]).collect();
        approx_vec(&out, &exp);
    }
    let cheb4 = cheby(ny);
    let expected1: [[f64; 4]; 6] = [
        [1.5, 1.3333, 0.0, 0.1667],
        [5.5, 1.3333, 0.0, 0.1667],
        [9.5, 1.3333, 0.0, 0.1667],
        [13.5, 1.3333, 0.0, 0.1667],
        [17.5, 1.3333, 0.0, 0.1667],
        [21.5, 1.3333, 0.0, 0.1667],
    ];
    for i in 0..nx {
        let lane: Vec<Rational> = (0..ny).map(|j| qi((i * ny + j) as i64)).collect();
        let out = cheb4.forward(&lane).unwrap();
        let exp: Vec<f64> = (0..ny).map(|j| expected1[i][j]).collect();
        approx_vec(&out, &exp);
    }
}

#[test]
fn test_cheby_fwd_bwd() {
    let (nx, ny) = (6usize, 4usize);
    let cheb6 = cheby(nx);
    for j in 0..ny {
        let lane: Vec<Rational> = (0..nx).map(|i| qi((i * ny + j) as i64)).collect();
        let vhat = cheb6.forward(&lane).unwrap();
        let back = cheb6.backward(&vhat).unwrap();
        let exp: Vec<f64> = lane.iter().map(to_f64).collect();
        approx_vec(&back, &exp);
    }
    let cheb4 = cheby(ny);
    for i in 0..nx {
        let lane: Vec<Rational> = (0..ny).map(|j| qi((i * ny + j) as i64)).collect();
        let vhat = cheb4.forward(&lane).unwrap();
        let back = cheb4.backward(&vhat).unwrap();
        let exp: Vec<f64> = lane.iter().map(to_f64).collect();
        approx_vec(&back, &exp);
    }
}

#[test]
fn test_stencil_chebdirichlet() {
    let stencil = StencilChebyshev::dirichlet(5);
    // to_parent
    let composite: Vec<Rational> = vec![qi(2), qf(0.70710678), qi(1)];
    let parent = stencil.to_parent(&composite).unwrap();
    approx_vec(&parent, &[2.0, 0.7071, -1.0, -0.7071, -1.0]);
    // from_parent
    let back = stencil.from_parent(&parent).unwrap();
    let exp: Vec<f64> = composite.iter().map(to_f64).collect();
    approx_vec(&back, &exp);
}

#[test]
fn test_stencil_neumann_values() {
    let stencil = StencilChebyshev::neumann(6);
    // phi_k = T_k - (k^2 / (k+2)^2) T_{k+2}: low2 entries 0, -1/9, -1/4, -9/25.
    let c: Vec<Rational> = vec![qi(1), qi(1), qi(1), qi(1)];
    let parent = stencil.to_parent(&c).unwrap();
    approx_vec(
        &parent,
        &[1.0, 1.0, 1.0 - 0.0, 1.0 - 1.0 / 9.0, -1.0 / 4.0, -9.0 / 25.0],
    );
}

#[test]
fn test_differentiate_exact_scalars() {
    // d/dx of T_2 is 4 T_1: coefficients [0, 0, 1] -> [0, 4, 0].
    let a: Vec<Rational> = vec![qi(0), qi(0), qi(1)];
    let out = Chebyshev::differentiate(&a, 1).unwrap();
    approx_vec(&out, &[0.0, 4.0, 0.0]);
    // Differentiating twice matches differentiating the derivative.
    let b: Vec<Rational> = vec![qi(1), qi(2), qi(3), qi(4), qi(5)];
    let once = Chebyshev::differentiate(&b, 1).unwrap();
    let twice_by_steps = Chebyshev::differentiate(&once, 1).unwrap();
    let twice = Chebyshev::differentiate(&b, 2).unwrap();
    let exp: Vec<f64> = twice_by_steps.iter().map(to_f64).collect();
    approx_vec(&twice, &exp);
}

#[test]
fn test_rational_exact_arithmetic() {
    let a = q(1, 3);
    let b = q(1, 6);
    let s = a.add(&b).unwrap();
    assert_eq!(s.numer(), 1);
    assert_eq!(s.denom(), 2);
    let p = a.mul(&b).unwrap();
    assert_eq!(p.numer(), 1);
    assert_eq!(p.denom(), 18);
    let d = a.div(&b).unwrap();
    assert_eq!(d.numer(), 2);
    assert_eq!(d.denom(), 1);
    // A zero denominator is rejected.
    assert!(Rational::new(1, 0).is_none());
}

#[test]
fn test_differentiate_linearity_values() {
    // Coefficientwise: diff(2 f + 3 g) equals 2 diff(f) + 3 diff(g).
    let f: Vec<Rational> = vec![qi(1), qi(0), qi(2), qi(-1), qi(4)];
    let g: Vec<Rational> = vec![qi(3), qi(5), qi(-2), qi(2), qi(1)];
    let combo: Vec<Rational> = f
        .iter()
        .zip(g.iter())
        .map(|(a, b)| {
            qi(2).mul(a).unwrap().add(&qi(3).mul(b).unwrap()).unwrap()
        })
        .collect();
    let dc = Chebyshev::differentiate(&combo, 1).unwrap();
    let df = Chebyshev::differentiate(&f, 1).unwrap();
    let dg = Chebyshev::differentiate(&g, 1).unwrap();
    for k in 0..f.len() {
        let rhs = qi(2)
            .mul(&df[k])
            .unwrap()
            .add(&qi(3).mul(&dg[k]).unwrap())
            .unwrap();
        assert!(dc[k].eq_rat(&rhs));
    }
}

#[test]
fn test_stencil_roundtrip_neumann() {
    // from_parent inverts to_parent for the Neumann stencil as well.
    let stencil = StencilChebyshev::neumann(7);
    let c: Vec<Rational> = vec![qi(3), q(1, 2), qi(-2), q(5, 3), qi(1)];
    let parent = stencil.to_parent(&c).unwrap();
    let back = stencil.from_parent(&parent).unwrap();
    assert_eq!(back.len(), c.len());
    for (a, b) in back.iter().zip(c.iter()) {
        assert!(a.eq_rat(b));
    }
}
