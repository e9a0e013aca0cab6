//! Composite Chebyshev bases: differentiation and transforms.
use ndspectral::bases::composite::{CompositeChebyshev, StencilKind};
use ndspectral::linalg::Matrix;
use ndspectral::rational::Rational;

const PI: f64 = std::f64::consts::PI;

fn qi(n: i64) -> Rational {
    Rational::from_i64(n)
}

fn qf(x: f64) -> Rational {
    let den: i64 = 1_000_000;
    Rational::new((x * den as f64).round() as i64, den).unwrap()
}

fn to_f64(r: &Rational) -> f64 {
    r.numer() as f64 / r.denom() as f64
}

/// Round a vector to the helper precision: transform outputs carry
/// large exact denominators, and the reverse transform only needs them
/// to well within the comparison tolerance.
fn round6(v: &Vec<Rational>) -> Vec<Rational> {
    v.iter().map(|r| qf(to_f64(r))).collect()
}

fn approx_vec(result: &Vec<Rational>, expected: &[f64]) {
    assert_eq!(result.len(), expected.len());
    for (r, e) in result.iter().zip(expected.iter()) {
        let got = to_f64(r);
        if (got - e).abs() > 1e-3 {
            panic!("large difference of values, got {} expected {}", got, e);
        }
    }
}

fn dct_matrix(n: usize) -> Matrix {
    let m = (n - 1) as f64;
    let mut rows: Vec<Vec<Rational>> = Vec::new();
    for k in 0..n {
        let mut row: Vec<Rational> = Vec::new();
        for j in 0..n {
            if j == 0 {
                row.push(qi(1));
            } else if j == n - 1 {
                row.push(qi(if k % 2 == 0 { 1 } else { -1 }));
            } else {
                row.push(qf(2.0 * (PI * (j * k) as f64 / m).cos()));
            }
        }
        rows.push(row);
    }
    Matrix::from_rows(n, n, rows).unwrap()
}

fn nodes(n: usize) -> Vec<Rational> {
    let m = (n - 1) as f64;
    (0..n).map(|k| qf(-(PI * (m - 2.0 * k as f64) / (2.0 * m)).sin())).collect()
}

fn dirichlet(n: usize) -> CompositeChebyshev {
    CompositeChebyshev::new(StencilKind::Dirichlet, n, nodes(n), dct_matrix(n))
}

fn neumann(n: usize) -> CompositeChebyshev {
    CompositeChebyshev::new(StencilKind::Neumann, n, nodes(n), dct_matrix(n))
}

#[test]
fn test_chebdirichlet_differentiate() {
    let (nx, ny) = (6usize, 4usize);
    // Axis 0: basis of parent size 8, composite lanes of length 6.
    let cd8 = dirichlet(nx + 2);
    let expected0: [[f64; 4]; 8] = [
        [-1440.0, -1548.0, -1656.0, -1764.0],
        [-5568.0, -5904.0, -6240.0, -6576.0],
        [-2688.0, -2880.0, -3072.0, -3264.0],
        [-4960.0, -5240.0, -5520.0, -5800.0],
        [-1920.0, -2040.0, -2160.0, -2280.0],
        [-3360.0, -3528.0, -3696.0, -3864.0],
        [0.0, 0.0, 0.0, 0.0],
        [0.0, 0.0, 0.0, 0.0],
    ];
    for j in 0..ny {
        let lane: Vec<Rational> = (0..nx).map(|i| qi((i * ny + j) as i64)).collect();
        let out = cd8.differentiate(&lane, 2).unwrap();
        let exp: Vec<f64> = (0..nx + 2).map(|i| expected0[i][j]).collect();
        approx_vec(&out, &exp);
    }
    // Axis 1: basis of parent size 6, composite lanes of length 4.
    let cd6 = dirichlet(ny + 2);
    let expected1: [[f64; 6]; 6] = [
        [-56.0, -312.0, -96.0, -240.0, 0.0, 0.0],
        [-184.0, -792.0, -288.0, -560.0, 0.0, 0.0],
        [-312.0, -1272.0, -480.0, -880.0, 0.0, 0.0],
        [-440.0, -1752.0, -672.0, -1200.0, 0.0, 0.0],
        [-568.0, -2232.0, -864.0, -1520.0, 0.0, 0.0],
        [-696.0, -2712.0, -1056.0, -1840.0, 0.0, 0.0],
    ];
    for i in 0..nx {
        let lane: Vec<Rational> = (0..ny).map(|j| qi((i * ny + j) as i64)).collect();
        let out = cd6.differentiate(&lane, 2).unwrap();
        let exp: Vec<f64> = (0..ny + 2).map(|j| expected1[i][j]).collect();
        approx_vec(&out, &exp);
    }
}

#[test]
fn test_chebneumann_differentiate() {
    let (nx, ny) = (6usize, 4usize);
    let cn8 = neumann(nx + 2);
    let expected0: [[f64; 4]; 8] = [
        [-288.0, -308.0, -328.0, -348.0],
        [-1269.6381, -1342.9333, -1416.2286, -1489.5238],
        [-693.3333, -742.6667, -792.0, -841.3333],
        [-1602.74286, -1694.4, -1786.0571, -1877.71428],
        [-853.3333, -906.6667, -960.0, -1013.333],
        [-1714.2857, -1800.0, -1885.7143, -1971.4286],
        [0.0, 0.0, 0.0, 0.0],
        [0.0, 0.0, 0.0, 0.0],
    ];
    for j in 0..ny {
        let lane: Vec<Rational> = (0..nx).map(|i| qi((i * ny + j) as i64)).collect();
        let out = cn8.differentiate(&lane, 2).unwrap();
        let exp: Vec<f64> = (0..nx + 2).map(|i| expected0[i][j]).collect();
        approx_vec(&out, &exp);
    }
    let cn6 = neumann(ny + 2);
    let expected1: [[f64; 6]; 6] = [
        [-8.0, -60.2667, -24.0, -86.4, 0.0, 0.0],
        [-24.0, -147.7333, -72.0, -201.6, 0.0, 0.0],
        [-40.0, -235.2, -120.0, -316.8, 0.0, 0.0],
        [-56.0, -322.6667, -168.0, -432.0, 0.0, 0.0],
        [-72.0, -410.1333, -216.0, -547.2, 0.0, 0.0],
        [-88.0, -497.6, -264.0, -662.4, 0.0, 0.0],
    ];
    for i in 0..nx {
        let lane: Vec<Rational> = (0..ny).map(|j| qi((i * ny + j) as i64)).collect();
        let out = cn6.differentiate(&lane, 2).unwrap();
        let exp: Vec<f64> = (0..ny + 2).map(|j| expected1[i][j]).collect();
        approx_vec(&out, &exp);
    }
}

#[test]
fn test_chebdirichlet_transform() {
    let (nx, ny) = (6usize, 4usize);
    let cd8 = dirichlet(nx + 2);
    let expected0: [[f64; 4]; 8] = [
        [0.0, 0.0, 0.0, 0.0],
        [-2.773, -2.773, -2.773, -2.773],
        [7.53, 8.283, 9.036, 9.789],
        [-21.769, -21.769, -21.769, -21.769],
        [24.45, 26.895, 29.341, 31.786],
        [-45.458, -45.458, -45.458, -45.458],
        [38.019, 41.821, 45.623, 49.425],
        [0.0, 0.0, 0.0, 0.0],
    ];
    for j in 0..ny {
        let lane: Vec<Rational> = (0..nx).map(|i| qi((i * ny + j) as i64)).collect();
        let res = cd8.backward(&lane).unwrap();
        let exp: Vec<f64> = (0..nx + 2).map(|i| expected0[i][j]).collect();
        approx_vec(&res, &exp);
        let fwd = cd8.forward(&res).unwrap();
        let exp2: Vec<f64> = lane.iter().map(to_f64).collect();
        approx_vec(&fwd, &exp2);
    }
    let cd6 = dirichlet(ny + 2);
    let expected1: [[f64; 6]; 6] = [
        [0.0, -0.955, 2.073, -6.545, 5.427, 0.0],
        [0.0, -0.955, 7.601, -6.545, 19.899, 0.0],
        [0.0, -0.955, 13.129, -6.545, 34.371, 0.0],
        [0.0, -0.955, 18.657, -6.545, 48.843, 0.0],
        [0.0, -0.955, 24.184, -6.545, 63.316, 0.0],
        [0.0, -0.955, 29.712, -6.545, 77.788, 0.0],
    ];
    for i in 0..nx {
        let lane: Vec<Rational> = (0..ny).map(|j| qi((i * ny + j) as i64)).collect();
        let res = cd6.backward(&lane).unwrap();
        let exp: Vec<f64> = (0..ny + 2).map(|j| expected1[i][j]).collect();
        approx_vec(&res, &exp);
        let fwd = cd6.forward(&res).unwrap();
        let exp2: Vec<f64> = lane.iter().map(to_f64).collect();
        approx_vec(&fwd, &exp2);
    }
}

#[test]
fn test_chebneumann_transform() {
    let (nx, ny) = (6usize, 4usize);
    let cn8 = neumann(nx + 2);
    let expected0: [[f64; 4]; 8] = [
        [-6.143, -5.856, -5.569, -5.282],
        [1.677, 2.324, 2.971, 3.618],
        [2.783, 3.438, 4.092, 4.747],
        [-14.913, -15.003, -15.092, -15.182],
        [21.12, 22.541, 23.961, 25.382],
        [-40.438, -41.443, -42.449, -43.454],
        [14.883, 17.949, 21.016, 24.083],
        [35.92, 40.245, 44.569, 48.893],
    ];
    for j in 0..ny {
        let lane: Vec<Rational> = (0..nx).map(|i| qi((i * ny + j) as i64)).collect();
        let res = cn8.backward(&lane).unwrap();
        let exp: Vec<f64> = (0..nx + 2).map(|i| expected0[i][j]).collect();
        approx_vec(&res, &exp);
    }
    let cn6 = neumann(ny + 2);
    let expected1: [[f64; 6]; 6] = [
        [-1.309, 0.026, 1.336, -4.881, 2.019, 4.309],
        [-0.424, 2.494, 4.871, -7.506, 11.641, 17.424],
        [0.46, 4.962, 8.406, -10.132, 21.264, 30.54],
        [1.344, 7.429, 11.942, -12.757, 30.886, 43.656],
        [2.229, 9.897, 15.477, -15.383, 40.509, 56.771],
        [3.113, 12.365, 19.012, -18.008, 50.131, 69.887],
    ];
    for i in 0..nx {
        let lane: Vec<Rational> = (0..ny).map(|j| qi((i * ny + j) as i64)).collect();
        let res = cn6.backward(&lane).unwrap();
        let exp: Vec<f64> = (0..ny + 2).map(|j| expected1[i][j]).collect();
        approx_vec(&res, &exp);
        // The exact denominators of the Neumann inverse transform exceed
        // the 64-bit range; rounding far inside the comparison tolerance
        // keeps the round trip checkable.
        let fwd = cn6.forward(&round6(&res)).unwrap();
        let exp2: Vec<f64> = lane.iter().map(to_f64).collect();
        approx_vec(&fwd, &exp2);
    }
}
