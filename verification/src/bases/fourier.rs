//! Real-to-complex Fourier basis, reduced to what the solvers consume:
//! its sizes and its diagonal Laplacian. The transform itself works on
//! complex values and lives outside this crate's scalar model; the
//! solvers only need the wavenumber eigenvalues, which are exact
//! integers.
use crate::linalg::all_wf;
use crate::rational::{rat_eqv, rat_int, Rat, Rational};
use vstd::prelude::*;

verus! {

/// Real-to-complex Fourier basis of physical size `n`: spectral size
/// `m = n/2 + 1`, Laplacian eigenvalue `-k^2` for wavenumber `k`.
pub struct FourierR2c {
    /// Number of points in physical space.
    pub n: usize,
    /// Number of coefficients in spectral space.
    pub m: usize,
}

impl FourierR2c {
    /// Sizes are consistent and small enough for exact index arithmetic.
    pub open spec fn wf(self) -> bool {
        self.m == self.n / 2 + 1 && 2 <= self.n <= 0x4000_0000
    }

    /// Creates a new basis.
    pub fn new(n: usize) -> (r: FourierR2c)
        requires
            2 <= n <= 0x4000_0000,
        ensures
            r.wf(),
            r.n == n,
            r.m == n / 2 + 1,
    {
        FourierR2c { n, m: n / 2 + 1 }
    }

    /// Return size of physical space.
    pub fn len_phys(&self) -> (r: usize)
        ensures
            r == self.n,
    {
        self.n
    }

    /// Return size of spectral space.
    pub fn len_spec(&self) -> (r: usize)
        ensures
            r == self.m,
    {
        self.m
    }

    /// The diagonal of the Laplacian in spectral space: entry `k` is
    /// `-k^2`.
    pub fn lap_diag(&self) -> (r: Vec<Rational>)
        requires
            self.wf(),
        ensures
            r@.len() == self.m as int,
            all_wf(r@),
            forall|k: int|
                0 <= k < self.m as int ==> rat_eqv(
                    #[trigger] crate::linalg::rats(r@)[k],
                    rat_int(-(k * k)),
                ),
    {
        let m: usize = self.m;
        let mut out: Vec<Rational> = Vec::new();
        let mut k: usize = 0;
        while k < m
            invariant
                0 <= k <= m,
                m <= 0x2000_0001,
                out@.len() == k as int,
                all_wf(out@),
                forall|t: int|
                    0 <= t < k as int ==> (#[trigger] out@[t]).wf() && rat_eqv(
                        out@[t]@,
                        rat_int(-(t * t)),
                    ),
            decreases m - k,
        {
            let kk: i64 = k as i64;
            proof {
                assert(kk * kk <= 0x7fff_ffff_ffff_ffff && kk * kk >= 0) by (nonlinear_arith)
                    requires
                        0 <= kk < 0x4000_0000,
                ;
            }
            out.push(Rational::from_i64(-(kk * kk)));
            k = k + 1;
        }
        out
    }
}

} // verus!
